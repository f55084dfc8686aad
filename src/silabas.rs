//! Spanish syllabification: where a word may be hyphenated.
use vstd::prelude::*;
use crate::puntos::{first_lower, char_first_lower};
use vstd::std_specs::iter::IteratorSpec;

verus! {

/// A vowel, accented or not, once folded to lowercase.
pub open spec fn vowel(c: char) -> bool {
    let l = first_lower(c);
    l == 'a' || l == 'e' || l == 'i' || l == 'o' || l == 'u' || l == '\u{00E1}' || l == '\u{00E9}'
        || l == '\u{00ED}' || l == '\u{00F3}' || l == '\u{00FA}' || l == '\u{00FC}'
}

/// A strong vowel (a, e, o, accented or not), once folded to lowercase.
pub open spec fn strong_vowel(c: char) -> bool {
    let l = first_lower(c);
    l == 'a' || l == 'e' || l == 'o' || l == '\u{00E1}' || l == '\u{00E9}' || l == '\u{00F3}'
}

/// A stressed weak vowel: í or ú, once folded to lowercase.
pub open spec fn stressed_weak(c: char) -> bool {
    let l = first_lower(c);
    l == '\u{00ED}' || l == '\u{00FA}'
}

/// Two adjacent vowels stay in one syllable unless both are strong or either
/// is a stressed weak vowel.
pub open spec fn diphthong(v1: char, v2: char) -> bool {
    !(strong_vowel(v1) && strong_vowel(v2)) && !stressed_weak(v1) && !stressed_weak(v2)
}

/// The consonant pairs that always begin a syllable together (compared after
/// folding to lowercase).
pub open spec fn onset_pair(a: char, b: char) -> bool {
    ||| a == 'b' && b == 'l'
    ||| a == 'b' && b == 'r'
    ||| a == 'c' && b == 'l'
    ||| a == 'c' && b == 'r'
    ||| a == 'd' && b == 'r'
    ||| a == 'f' && b == 'l'
    ||| a == 'f' && b == 'r'
    ||| a == 'g' && b == 'l'
    ||| a == 'g' && b == 'r'
    ||| a == 'p' && b == 'l'
    ||| a == 'p' && b == 'r'
    ||| a == 't' && b == 'r'
    ||| a == 'c' && b == 'h'
    ||| a == 'l' && b == 'l'
    ||| a == 'r' && b == 'r'
}

pub open spec fn inseparable(c1: char, c2: char) -> bool {
    onset_pair(first_lower(c1), first_lower(c2))
}

/// Whether a character is a vowel (a, e, i, o, u, their accented forms and ü).
pub fn es_vocal(c: char) -> (r: bool)
    ensures
        r == vowel(c),
{
    let l = char_first_lower(c);
    matches!(l, 'a' | 'e' | 'i' | 'o' | 'u' | '\u{00E1}' | '\u{00E9}' | '\u{00ED}' | '\u{00F3}' | '\u{00FA}' | '\u{00FC}')
}

/// Whether a character is a strong vowel.
pub fn es_vocal_fuerte(c: char) -> (r: bool)
    ensures
        r == strong_vowel(c),
{
    let l = char_first_lower(c);
    matches!(l, 'a' | 'e' | 'o' | '\u{00E1}' | '\u{00E9}' | '\u{00F3}')
}

/// Whether a character is í or ú, which always break a vowel pair.
pub fn es_vocal_debil_acentuada(c: char) -> (r: bool)
    ensures
        r == stressed_weak(c),
{
    let l = char_first_lower(c);
    l == '\u{00ED}' || l == '\u{00FA}'
}

/// Whether two adjacent vowels form a diphthong.
pub fn forman_diptongo(v1: char, v2: char) -> (r: bool)
    ensures
        r == diphthong(v1, v2),
{
    if es_vocal_fuerte(v1) && es_vocal_fuerte(v2) {
        return false;
    }
    if es_vocal_debil_acentuada(v1) || es_vocal_debil_acentuada(v2) {
        return false;
    }
    true
}

/// Whether two consonants form an onset that cannot be split.
pub fn es_grupo_inseparable(c1: char, c2: char) -> (r: bool)
    ensures
        r == inseparable(c1, c2),
{
    let a = char_first_lower(c1);
    let b = char_first_lower(c2);
    match (a, b) {
        ('b', 'l') | ('b', 'r') | ('c', 'l') | ('c', 'r') | ('d', 'r') | ('f', 'l') | ('f', 'r')
        | ('g', 'l') | ('g', 'r') | ('p', 'l') | ('p', 'r') | ('t', 'r') | ('c', 'h') | ('l', 'l')
        | ('r', 'r') => true,
        _ => false,
    }
}

/// The first vowel at or after `i` (or `i` itself once past the end).
pub open spec fn next_vowel(w: Seq<char>, i: int) -> int
    decreases w.len() - i,
{
    if i >= w.len() || vowel(w[i]) {
        i
    } else {
        next_vowel(w, i + 1)
    }
}

/// The end of the vowel nucleus that starts with the vowel at `v`: a following
/// vowel that forms a diphthong joins it, and a third one likewise.
pub open spec fn nucleus_end(w: Seq<char>, v: int) -> int {
    let a = v + 1;
    if a < w.len() && vowel(w[a]) && diphthong(w[a - 1], w[a]) {
        let b = a + 1;
        if b < w.len() && vowel(w[b]) && diphthong(w[b - 1], w[b]) {
            b + 1
        } else {
            b
        }
    } else {
        a
    }
}

/// The boundary set between a nucleus that ends at `s` and the next vowel at `e`,
/// by the number of consonants between them.
pub open spec fn cut_between(w: Seq<char>, s: int, e: int) -> Seq<int> {
    let k = e - s;
    if k == 0 {
        if !diphthong(w[e - 1], w[e]) { seq![e] } else { seq![] }
    } else if k == 1 {
        seq![s]
    } else if k == 2 {
        if inseparable(w[s], w[s + 1]) { seq![s] } else { seq![s + 1] }
    } else if k == 3 {
        if inseparable(w[s + 1], w[s + 2]) { seq![s + 1] } else { seq![s + 2] }
    } else {
        seq![s + k / 2]
    }
}

/// The syllable boundaries (character positions) found when scanning from `i`.
pub open spec fn cuts_from(w: Seq<char>, i: int) -> Seq<int>
    decreases w.len() - i,
{
    if i >= w.len() {
        seq![]
    } else {
        let v = next_vowel(w, i);
        let s = nucleus_end(w, v);
        let e = next_vowel(w, s);
        if v >= w.len() || s >= w.len() || e >= w.len() || e <= i {
            seq![]
        } else {
            cut_between(w, s, e) + cuts_from(w, e)
        }
    }
}

/// The character positions where the syllables of a word start; 0 first, and
/// nothing for an empty word.
pub open spec fn syllable_starts(w: Seq<char>) -> Seq<int> {
    if w.len() == 0 {
        seq![]
    } else {
        seq![0int] + cuts_from(w, 0)
    }
}

pub open spec fn ints(v: Seq<usize>) -> Seq<int> {
    v.map_values(|x: usize| x as int)
}

/// Bytes that a character takes in UTF-8.
pub open spec fn utf8_len(c: char) -> int {
    if (c as u32) < 0x80 {
        1
    } else if (c as u32) < 0x800 {
        2
    } else if (c as u32) < 0x10000 {
        3
    } else {
        4
    }
}

/// Byte offset of the character at position `k` of a string.
pub open spec fn byte_offset(w: Seq<char>, k: int) -> int
    decreases k,
{
    if k <= 0 {
        0
    } else {
        byte_offset(w, k - 1) + utf8_len(w[k - 1])
    }
}

fn primera_vocal(chars: &Vec<char>, i: usize) -> (r: usize)
    requires
        i <= chars@.len(),
    ensures
        r == next_vowel(chars@, i as int),
        i <= r <= chars@.len(),
        r < chars@.len() ==> vowel(chars@[r as int]),
{
    let mut j = i;
    while j < chars.len() && !es_vocal(chars[j])
        invariant
            i <= j <= chars@.len(),
            next_vowel(chars@, j as int) == next_vowel(chars@, i as int),
        decreases chars@.len() - j,
    {
        j = j + 1;
    }
    j
}

fn fin_nucleo(chars: &Vec<char>, v: usize) -> (r: usize)
    requires
        v < chars@.len(),
    ensures
        r == nucleus_end(chars@, v as int),
        v < r <= chars@.len(),
{
    let n = chars.len();
    let mut i = v + 1;
    if i < n && es_vocal(chars[i]) && forman_diptongo(chars[i - 1], chars[i]) {
        i = i + 1;
        if i < n && es_vocal(chars[i]) && forman_diptongo(chars[i - 1], chars[i]) {
            i = i + 1;
        }
    }
    i
}

/// The character positions where the syllables of a word start.
pub fn silabas_por_caracter(chars: &Vec<char>) -> (r: Vec<usize>)
    ensures
        ints(r@) == syllable_starts(chars@),
        forall|j: int| 0 <= j < r@.len() ==> r@[j] < chars@.len(),
{
    let n = chars.len();
    if n == 0 {
        let e: Vec<usize> = Vec::new();
        assert(ints(e@) =~= seq![]);
        return e;
    }
    let ghost w = chars@;
    let mut cortes: Vec<usize> = Vec::new();
    cortes.push(0);
    assert(ints(cortes@) =~= seq![0int]);
    let mut i: usize = 0;
    while i < n
        invariant
            n == w.len(),
            w == chars@,
            i <= n,
            ints(cortes@) + cuts_from(w, i as int) == syllable_starts(w),
            forall|j: int| 0 <= j < cortes@.len() ==> cortes@[j] < n,
        decreases n - i,
    {
        let v = primera_vocal(chars, i);
        let s = if v < n {
            fin_nucleo(chars, v)
        } else {
            n
        };
        let e = if s < n {
            primera_vocal(chars, s)
        } else {
            n
        };
        if e >= n {
            // no vowel follows the nucleus: the last syllable runs to the end
            assert(cuts_from(w, i as int) =~= seq![]);
            i = n;
            assert(cuts_from(w, i as int) =~= seq![]);
            assert(ints(cortes@) + cuts_from(w, i as int) =~= ints(cortes@));
        } else {
            let ghost before = cortes@;
            let k = e - s;
            if k == 0 {
                if !forman_diptongo(chars[e - 1], chars[e]) {
                    cortes.push(e);
                }
            } else if k == 1 {
                cortes.push(s);
            } else if k == 2 {
                if es_grupo_inseparable(chars[s], chars[s + 1]) {
                    cortes.push(s);
                } else {
                    cortes.push(s + 1);
                }
            } else if k == 3 {
                if es_grupo_inseparable(chars[s + 1], chars[s + 2]) {
                    cortes.push(s + 1);
                } else {
                    cortes.push(s + 2);
                }
            } else {
                cortes.push(s + k / 2);
            }
            assert(ints(cortes@) =~= ints(before) + cut_between(w, s as int, e as int));
            assert(cuts_from(w, i as int) == cut_between(w, s as int, e as int) + cuts_from(
                w,
                e as int,
            ));
            assert(ints(cortes@) + cuts_from(w, e as int) =~= ints(before) + cuts_from(
                w,
                i as int,
            ));
            i = e;
        }
    }
    cortes
}

proof fn lemma_byte_offset_bound(w: Seq<char>, k: int)
    requires
        0 <= k,
    ensures
        k <= byte_offset(w, k) <= 4 * k,
    decreases k,
{
    if k > 0 {
        lemma_byte_offset_bound(w, k - 1);
    }
}

/// Bytes that a character takes in UTF-8.
pub fn longitud_utf8(c: char) -> (r: usize)
    ensures
        r == utf8_len(c),
{
    let v = c as u32;
    if v < 0x80 {
        1
    } else if v < 0x800 {
        2
    } else if v < 0x10000 {
        3
    } else {
        4
    }
}

/// The characters of a string, in order.
pub fn caracteres(s: &str) -> (r: Vec<char>)
    ensures
        r@ == s@,
{
    broadcast use vstd::string::axiom_spec_iter, vstd::string::next_postcondition;

    let mut it = s.chars();
    let mut r: Vec<char> = Vec::new();
    loop
        invariant
            r@ + it.remaining() == s@,
            it.obeys_prophetic_iter_laws(),
            it.decrease() is Some,
        ensures
            r@ == s@,
        decreases it.decrease()->0,
    {
        match it.next() {
            Some(c) => {
                r.push(c);
                assert(r@ + it.remaining() =~= s@);
            },
            None => {
                assert(r@ =~= s@);
                break;
            },
        }
    }
    r
}

/// The byte offsets where the syllables of a word start; the first is always 0,
/// and an empty word has none.
pub fn silabear(palabra: &str) -> (r: Vec<usize>)
    requires
        palabra@.len() <= usize::MAX / 4,
    ensures
        r@.len() == syllable_starts(palabra@).len(),
        forall|j: int|
            0 <= j < r@.len() ==> r@[j] == byte_offset(palabra@, #[trigger] syllable_starts(palabra@)[j]),
{
    let chars = caracteres(palabra);
    let cortes = silabas_por_caracter(&chars);
    let ghost w = chars@;
    let n = chars.len();
    let mut offsets: Vec<usize> = Vec::new();
    let mut b: usize = 0;
    let mut k: usize = 0;
    offsets.push(0);
    while k < n
        invariant
            w == chars@,
            n == w.len(),
            n <= usize::MAX / 4,
            k <= n,
            offsets@.len() == k + 1,
            b == byte_offset(w, k as int),
            forall|j: int| 0 <= j <= k ==> offsets@[j] == byte_offset(w, j),
        decreases n - k,
    {
        proof {
            lemma_byte_offset_bound(w, k + 1);
        }
        b = b + longitud_utf8(chars[k]);
        k = k + 1;
        offsets.push(b);
    }
    let mut r: Vec<usize> = Vec::new();
    let mut j: usize = 0;
    while j < cortes.len()
        invariant
            w == chars@,
            n == w.len(),
            offsets@.len() == n + 1,
            forall|t: int| 0 <= t <= n ==> offsets@[t] == byte_offset(w, t),
            ints(cortes@) == syllable_starts(w),
            forall|t: int| 0 <= t < cortes@.len() ==> cortes@[t] < n,
            j <= cortes@.len(),
            r@.len() == j,
            forall|t: int| 0 <= t < j ==> r@[t] == byte_offset(w, syllable_starts(w)[t]),
        decreases cortes@.len() - j,
    {
        assert(syllable_starts(w)[j as int] == cortes@[j as int] as int);
        r.push(offsets[cortes[j]]);
        j = j + 1;
    }
    r
}

} // verus!
