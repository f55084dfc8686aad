//! Text to braille cells: one left-to-right scan that tracks the numeric mode
//! and marks capitals, prefixes and syllable starts on every cell.
use vstd::prelude::*;
use crate::puntos::{
    PREFIJO_MAYUSCULA, PREFIJO_NUMERO, letter_dots, digit_dots, punct_dots, dots_value, lower_letter, lemma_prefix_values,
    is_alpha, is_upper, letra_minuscula, puntos_a_byte, a_minuscula, char_is_alphabetic,
    char_is_uppercase, digito_a_puntos, puntuacion_a_puntos,
};
use crate::silabas::{syllable_starts, ints, silabas_por_caracter, caracteres};

verus! {

/// One braille cell with what line packing needs to know of it.
#[derive(Clone, Copy, Debug, PartialEq, Eq)]
pub struct CeldaInfo {
    /// The cell value, dots packed into bits.
    pub byte: u8,
    /// A capital or numeric indicator, never to be parted from the cell after it.
    pub es_prefijo: bool,
    /// The syllable of its word that the cell belongs to; `None` outside words.
    pub silaba_idx: Option<u32>,
    /// The first cell of a syllable other than the first: a place to break.
    pub inicio_silaba: bool,
    /// The first cell of a word.
    pub inicio_palabra: bool,
}

pub open spec fn cell(byte: u8, pref: bool, sil: Option<u32>, s: bool, p: bool) -> CeldaInfo {
    CeldaInfo { byte, es_prefijo: pref, silaba_idx: sil, inicio_silaba: s, inicio_palabra: p }
}

/// The blank cell written for a space or a line break.
pub open spec fn blank_cell() -> CeldaInfo {
    cell(0, false, None, false, false)
}

/// The cell value of a letter's table entry, if it has one.
pub open spec fn letter_value(c: char) -> Option<u8> {
    match letter_dots(c) {
        Some(d) => Some(dots_value(d)),
        None => None,
    }
}

/// The syllable that letter `k` of a word belongs to: how many syllable starts
/// lie in 1..=k.
pub open spec fn syl_index(starts: Seq<int>, k: int) -> nat
    decreases k,
{
    if k <= 0 {
        0
    } else {
        syl_index(starts, k - 1) + if starts.contains(k) { 1nat } else { 0nat }
    }
}

/// Letter `k` starts a syllable other than the first.
pub open spec fn syl_start(starts: Seq<int>, k: int) -> bool {
    k > 0 && starts.contains(k)
}

/// A word whose letters are all uppercase (and that has at least one letter).
pub open spec fn all_caps(w: Seq<char>) -> bool {
    &&& exists|k: int| 0 <= k < w.len() && #[trigger] is_alpha(w[k])
    &&& forall|k: int| 0 <= k < w.len() && #[trigger] is_alpha(w[k]) ==> is_upper(w[k])
}

/// The cells of letter `k` of an all-caps word: its base cell (a word start
/// when it is the word's first letter), after the word's one capital indicator
/// when it is the first letter that has a cell (`started` tells whether one
/// came before). A letter outside the table gives nothing.
pub open spec fn caps_letter(w: Seq<char>, starts: Seq<int>, k: int, started: bool) -> Seq<
    CeldaInfo,
> {
    let sil = Some(syl_index(starts, k) as u32);
    match letter_value(lower_letter(w[k])) {
        Some(b) => (if started {
            seq![]
        } else {
            seq![cell(PREFIJO_MAYUSCULA, true, sil, false, true)]
        }) + seq![cell(b, false, sil, syl_start(starts, k), k == 0)],
        None => seq![],
    }
}

/// The cells of letter `k` of any other word: a capital gets its own indicator
/// right before its base cell; a letter outside the table gives nothing. The
/// first cell of the word carries the word-start mark.
pub open spec fn mixed_letter(w: Seq<char>, starts: Seq<int>, k: int, started: bool) -> Seq<
    CeldaInfo,
> {
    let sil = Some(syl_index(starts, k) as u32);
    if is_upper(w[k]) {
        match letter_value(lower_letter(w[k])) {
            Some(b) => seq![
                cell(PREFIJO_MAYUSCULA, true, sil, syl_start(starts, k), !started),
                cell(b, false, sil, false, false),
            ],
            None => seq![],
        }
    } else {
        match letter_value(w[k]) {
            Some(b) => seq![cell(b, false, sil, syl_start(starts, k), !started)],
            None => seq![],
        }
    }
}

pub open spec fn caps_cells(w: Seq<char>, starts: Seq<int>, k: int, started: bool) -> Seq<
    CeldaInfo,
>
    decreases w.len() - k,
{
    if k >= w.len() {
        seq![]
    } else {
        let c = caps_letter(w, starts, k, started);
        c + caps_cells(w, starts, k + 1, started || c.len() > 0)
    }
}

pub open spec fn mixed_cells(w: Seq<char>, starts: Seq<int>, k: int, started: bool) -> Seq<
    CeldaInfo,
>
    decreases w.len() - k,
{
    if k >= w.len() {
        seq![]
    } else {
        let c = mixed_letter(w, starts, k, started);
        c + mixed_cells(w, starts, k + 1, started || c.len() > 0)
    }
}

/// The cells of a word: an all-caps word gets one capital indicator in front
/// of its first letter that has a cell, any other word one in front of each
/// capital letter that has a cell.
pub open spec fn word_cells(w: Seq<char>) -> Seq<CeldaInfo> {
    let starts = syllable_starts(w);
    if all_caps(w) {
        caps_cells(w, starts, 0, false)
    } else {
        mixed_cells(w, starts, 0, false)
    }
}

/// Every indicator is followed by the cell it modifies: a cell that is neither
/// an indicator nor blank, and that belongs to a word when the indicator does.
pub open spec fn prefixes_followed(c: Seq<CeldaInfo>) -> bool {
    forall|j: int|
        0 <= j < c.len() && (#[trigger] c[j]).es_prefijo ==> j + 1 < c.len() && !c[j + 1].es_prefijo
            && c[j + 1].byte != 0 && (c[j].silaba_idx is Some ==> c[j + 1].silaba_idx is Some)
}

proof fn lemma_push_plain(r: Seq<CeldaInfo>, c: CeldaInfo)
    requires
        prefixes_followed(r),
        !c.es_prefijo,
    ensures
        prefixes_followed(r.push(c)),
{
    let r2 = r.push(c);
    assert forall|j: int| 0 <= j < r2.len() && (#[trigger] r2[j]).es_prefijo implies j + 1 < r2.len()
        && !r2[j + 1].es_prefijo && r2[j + 1].byte != 0 && (r2[j].silaba_idx is Some
        ==> r2[j + 1].silaba_idx is Some) by {
        assert(r2[j] == r[j]);
    }
}

proof fn lemma_push_pair(r: Seq<CeldaInfo>, p: CeldaInfo, c: CeldaInfo)
    requires
        prefixes_followed(r),
        !c.es_prefijo,
        c.byte != 0,
        p.silaba_idx is Some ==> c.silaba_idx is Some,
    ensures
        prefixes_followed(r.push(p).push(c)),
{
    let r2 = r.push(p).push(c);
    assert forall|j: int| 0 <= j < r2.len() && (#[trigger] r2[j]).es_prefijo implies j + 1 < r2.len()
        && !r2[j + 1].es_prefijo && r2[j + 1].byte != 0 && (r2[j].silaba_idx is Some
        ==> r2[j + 1].silaba_idx is Some) by {
        if j < r.len() {
            assert(r2[j] == r[j]);
            if j + 1 < r.len() {
                assert(r2[j + 1] == r[j + 1]);
            }
        }
    }
}

/// The end of the run of letters that starts at `i`.
pub open spec fn word_end(t: Seq<char>, i: int) -> int
    decreases t.len() - i,
{
    if i >= t.len() || !is_alpha(t[i]) {
        i
    } else {
        word_end(t, i + 1)
    }
}

/// No word of the text has more letters than a syllable index can count.
pub open spec fn words_fit(t: Seq<char>) -> bool {
    forall|i: int| 0 <= i < t.len() ==> #[trigger] word_end(t, i) - i <= u32::MAX
}

/// Whether no word of the text is longer than `u32::MAX` letters.
pub fn palabras_caben(texto: &str) -> (r: bool)
    ensures
        r == words_fit(texto@),
{
    let t = caracteres(texto);
    let mut i = t.len();
    let mut e = t.len();
    let mut caben = true;
    while i > 0 && caben
        invariant
            i <= e <= t@.len(),
            e == word_end(t@, i as int),
            t@ == texto@,
            caben ==> forall|k: int| i <= k < t@.len() ==> #[trigger] word_end(t@, k) - k <= u32::MAX,
            !caben ==> !words_fit(t@),
        decreases i + if caben { 1int } else { 0int },
    {
        let c = t[i - 1];
        if !char_is_alphabetic(c) {
            e = i - 1;
        }
        if e - (i - 1) > 4294967295usize {
            assert(word_end(t@, i - 1) - (i - 1) > u32::MAX);
            caben = false;
        } else {
            i = i - 1;
        }
    }
    caben
}

/// The cells of the text from position `i` on, `num` being the numeric mode.
pub open spec fn encode_from(t: Seq<char>, i: int, num: bool) -> Seq<CeldaInfo>
    decreases t.len() - i,
{
    if i >= t.len() {
        seq![]
    } else {
        let c = t[i];
        if c == ' ' || c == '\n' || c == '\r' {
            seq![blank_cell()] + encode_from(t, i + 1, false)
        } else if digit_dots(c) is Some {
            (if num {
                seq![]
            } else {
                seq![cell(PREFIJO_NUMERO, true, None, false, false)]
            }) + seq![cell(dots_value(digit_dots(c)->0), false, None, false, false)]
                + encode_from(t, i + 1, true)
        } else if is_alpha(c) {
            let j = word_end(t, i);
            if j <= i || j > t.len() {
                seq![]
            } else {
                word_cells(t.subrange(i, j)) + encode_from(t, j, false)
            }
        } else if punct_dots(c) is Some {
            seq![cell(dots_value(punct_dots(c)->0), false, None, false, false)] + encode_from(
                t,
                i + 1,
                if c == '.' { false } else { num },
            )
        } else {
            encode_from(t, i + 1, num)
        }
    }
}

/// The cells of a whole text.
pub open spec fn encode(t: Seq<char>) -> Seq<CeldaInfo> {
    encode_from(t, 0, false)
}

/// Every cell value fits in six bits.
pub open spec fn cells_small(c: Seq<CeldaInfo>) -> bool {
    forall|k: int| 0 <= k < c.len() ==> (#[trigger] c[k]).byte < 64
}

fn todas_mayusculas(w: &Vec<char>) -> (r: bool)
    ensures
        r == all_caps(w@),
{
    let mut alguna = false;
    let mut k: usize = 0;
    while k < w.len()
        invariant
            k <= w@.len(),
            alguna == exists|j: int| 0 <= j < k && #[trigger] is_alpha(w@[j]),
            forall|j: int| 0 <= j < k && #[trigger] is_alpha(w@[j]) ==> is_upper(w@[j]),
        decreases w@.len() - k,
    {
        let c = w[k];
        if char_is_alphabetic(c) {
            if !char_is_uppercase(c) {
                return false;
            }
            alguna = true;
        }
        k = k + 1;
    }
    alguna
}

/// Whether every letter of a word is uppercase; a word with no letter is not.
pub fn palabra_es_all_caps(palabra: &str) -> (r: bool)
    ensures
        r == all_caps(palabra@),
{
    let w = caracteres(palabra);
    todas_mayusculas(&w)
}

fn contiene(v: &Vec<usize>, x: usize) -> (r: bool)
    ensures
        r == ints(v@).contains(x as int),
{
    let mut k: usize = 0;
    while k < v.len()
        invariant
            k <= v@.len(),
            forall|j: int| 0 <= j < k ==> v@[j] != x,
        decreases v@.len() - k,
    {
        if v[k] == x {
            assert(ints(v@)[k as int] == x as int);
            return true;
        }
        k = k + 1;
    }
    assert(!ints(v@).contains(x as int)) by {
        if ints(v@).contains(x as int) {
            let j = choose|j: int| 0 <= j < ints(v@).len() && ints(v@)[j] == x as int;
            assert(v@[j] == x);
        }
    }
    false
}

proof fn lemma_syl_index_bound(starts: Seq<int>, k: int)
    ensures
        syl_index(starts, k) <= if k < 0 { 0 } else { k },
    decreases k,
{
    if k > 0 {
        lemma_syl_index_bound(starts, k - 1);
    }
}

/// The base cell of a letter, if its lowercase form is in the table.
fn celda_letra(c: char) -> (r: Option<u8>)
    ensures
        r == letter_value(c),
        r matches Some(b) ==> b < 64 && b != 0,
{
    match letra_minuscula(c) {
        Some(d) => Some(puntos_a_byte(d.as_slice())),
        None => None,
    }
}

fn celda(byte: u8, pref: bool, sil: Option<u32>, s: bool, p: bool) -> (r: CeldaInfo)
    ensures
        r == cell(byte, pref, sil, s, p),
{
    CeldaInfo { byte, es_prefijo: pref, silaba_idx: sil, inicio_silaba: s, inicio_palabra: p }
}

/// Appends the cells of one word.
#[verifier::rlimit(60)]
fn codificar_palabra(w: &Vec<char>, resultado: &mut Vec<CeldaInfo>)
    requires
        w@.len() <= u32::MAX,
        cells_small(old(resultado)@),
        prefixes_followed(old(resultado)@),
    ensures
        final(resultado)@ == old(resultado)@ + word_cells(w@),
        cells_small(final(resultado)@),
        prefixes_followed(final(resultado)@),
{
    let ghost init = old(resultado)@;
    let inicios = silabas_por_caracter(w);
    let ghost starts = syllable_starts(w@);
    let caps = todas_mayusculas(w);
    let mut empezada = false;
    let mut sil: u32 = 0;
    let mut k: usize = 0;
    while k < w.len()
        invariant
            k <= w@.len(),
            w@.len() <= u32::MAX,
            ints(inicios@) == starts,
            starts == syllable_starts(w@),
            sil as nat == syl_index(starts, k - 1),
            cells_small(resultado@),
            prefixes_followed(resultado@),
            caps ==> resultado@ + caps_cells(w@, starts, k as int, empezada) == init + caps_cells(
                w@,
                starts,
                0,
                false,
            ),
            !caps ==> resultado@ + mixed_cells(w@, starts, k as int, empezada) == init
                + mixed_cells(w@, starts, 0, false),
        decreases w@.len() - k,
    {
        let ghost before = resultado@;
        let ghost was = empezada;
        let es_s = k > 0 && contiene(&inicios, k);
        proof {
            lemma_syl_index_bound(starts, k as int);
        }
        if es_s {
            sil = sil + 1;
        }
        assert(sil as nat == syl_index(starts, k as int));
        assert(es_s == syl_start(starts, k as int));
        let letra = w[k];
        if caps {
            if let Some(b) = celda_letra(a_minuscula(letra)) {
                let base = celda(b, false, Some(sil), es_s, k == 0);
                if !empezada {
                    let pref = celda(PREFIJO_MAYUSCULA, true, Some(sil), false, true);
                    resultado.push(pref);
                    resultado.push(base);
                    proof {
                        lemma_push_pair(before, pref, base);
                    }
                } else {
                    resultado.push(base);
                    proof {
                        lemma_push_plain(before, base);
                    }
                }
                empezada = true;
            }
            let ghost c = caps_letter(w@, starts, k as int, was);
            assert(resultado@ =~= before + c);
            assert(empezada == (was || c.len() > 0));
            assert(caps_cells(w@, starts, k as int, was) == c + caps_cells(
                w@,
                starts,
                k + 1,
                was || c.len() > 0,
            ));
            assert(resultado@ + caps_cells(w@, starts, k + 1, empezada) =~= before + caps_cells(
                w@,
                starts,
                k as int,
                was,
            ));
        } else {
            if char_is_uppercase(letra) {
                if let Some(b) = celda_letra(a_minuscula(letra)) {
                    let pref = celda(PREFIJO_MAYUSCULA, true, Some(sil), es_s, !empezada);
                    let base = celda(b, false, Some(sil), false, false);
                    resultado.push(pref);
                    resultado.push(base);
                    proof {
                        lemma_push_pair(before, pref, base);
                    }
                    empezada = true;
                }
            } else if let Some(b) = celda_letra(letra) {
                let base = celda(b, false, Some(sil), es_s, !empezada);
                resultado.push(base);
                proof {
                    lemma_push_plain(before, base);
                }
                empezada = true;
            }
            let ghost c = mixed_letter(w@, starts, k as int, was);
            assert(resultado@ =~= before + c);
            assert(empezada == (was || c.len() > 0));
            assert(mixed_cells(w@, starts, k as int, was) == c + mixed_cells(
                w@,
                starts,
                k + 1,
                was || c.len() > 0,
            ));
            assert(resultado@ + mixed_cells(w@, starts, k + 1, empezada) =~= before + mixed_cells(
                w@,
                starts,
                k as int,
                was,
            ));
        }
        k = k + 1;
    }
    assert(caps_cells(w@, starts, k as int, empezada) =~= seq![]);
    assert(mixed_cells(w@, starts, k as int, empezada) =~= seq![]);
    assert(resultado@ =~= init + word_cells(w@));
}

/// Encodes a text as braille cells. Spaces and line breaks give blank cells;
/// a run of digits gets a numeric indicator (a period ends the run); a word gets
/// capital indicators and syllable marks; supported punctuation gets its cell;
/// every other character is dropped.
pub fn codificar_texto(texto: &str) -> (r: Vec<CeldaInfo>)
    requires
        words_fit(texto@),
    ensures
        r@ == encode(texto@),
        cells_small(r@),
        prefixes_followed(r@),
{
    let chars = caracteres(texto);
    let ghost t = chars@;
    let n = chars.len();
    let mut resultado: Vec<CeldaInfo> = Vec::new();
    let mut modo_numerico = false;
    let mut i: usize = 0;
    proof {
        lemma_prefix_values();
    }
    assert(resultado@ + encode_from(t, 0, false) =~= encode(t));
    while i < n
        invariant
            t == chars@,
            n == t.len(),
            words_fit(t),
            i <= n,
            resultado@ + encode_from(t, i as int, modo_numerico) == encode(t),
            cells_small(resultado@),
            prefixes_followed(resultado@),
        decreases n - i,
    {
        let c = chars[i];
        let ghost before = resultado@;
        let ghost rest = encode_from(t, i as int, modo_numerico);
        if c == ' ' || c == '\n' || c == '\r' {
            let blanco = celda(0, false, None, false, false);
            resultado.push(blanco);
            proof {
                lemma_push_plain(before, blanco);
            }
            modo_numerico = false;
            i = i + 1;
            assert(resultado@ + encode_from(t, i as int, modo_numerico) =~= before + rest);
        } else if let Some(d) = digito_a_puntos(c) {
            let b = puntos_a_byte(d.as_slice());
            let digito = celda(b, false, None, false, false);
            if !modo_numerico {
                let pref = celda(PREFIJO_NUMERO, true, None, false, false);
                resultado.push(pref);
                resultado.push(digito);
                proof {
                    lemma_push_pair(before, pref, digito);
                }
            } else {
                resultado.push(digito);
                proof {
                    lemma_push_plain(before, digito);
                }
            }
            modo_numerico = true;
            i = i + 1;
            assert(resultado@ + encode_from(t, i as int, modo_numerico) =~= before + rest);
        } else if char_is_alphabetic(c) {
            modo_numerico = false;
            let mut j = i;
            while j < n && char_is_alphabetic(chars[j])
                invariant
                    t == chars@,
                    n == t.len(),
                    i <= j <= n,
                    word_end(t, j as int) == word_end(t, i as int),
                decreases n - j,
            {
                j = j + 1;
            }
            assert(word_end(t, i as int) - i <= u32::MAX);
            let mut palabra: Vec<char> = Vec::new();
            let mut k = i;
            while k < j
                invariant
                    t == chars@,
                    i <= k <= j <= n,
                    n == t.len(),
                    palabra@ == t.subrange(i as int, k as int),
                decreases j - k,
            {
                palabra.push(chars[k]);
                k = k + 1;
                assert(palabra@ =~= t.subrange(i as int, k as int));
            }
            codificar_palabra(&palabra, &mut resultado);
            i = j;
            assert(resultado@ + encode_from(t, i as int, modo_numerico) =~= before + rest);
        } else if let Some(d) = puntuacion_a_puntos(c) {
            if c == '.' {
                modo_numerico = false;
            }
            let b = puntos_a_byte(d.as_slice());
            let signo = celda(b, false, None, false, false);
            resultado.push(signo);
            proof {
                lemma_push_plain(before, signo);
            }
            i = i + 1;
            assert(resultado@ + encode_from(t, i as int, modo_numerico) =~= before + rest);
        } else {
            i = i + 1;
        }
    }
    assert(resultado@ =~= encode(t));
    resultado
}

} // verus!
