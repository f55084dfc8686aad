//! Braille dot patterns: the tables from characters to raised dots, and the
//! packing of a set of dots into a cell value.
use vstd::prelude::*;

verus! {

/// The bit that stands for dot `p` (1..=6) in a cell value; 0 for anything else.
pub open spec fn dot_bit(p: u8) -> u8 {
    if p == 1 { 1 }
    else if p == 2 { 2 }
    else if p == 3 { 4 }
    else if p == 4 { 8 }
    else if p == 5 { 16 }
    else if p == 6 { 32 }
    else { 0 }
}

/// The cell value of a list of raised dots: the OR of their bits.
pub open spec fn dots_value(d: Seq<u8>) -> u8
    decreases d.len(),
{
    if d.len() == 0 {
        0
    } else {
        dots_value(d.drop_last()) | dot_bit(d.last())
    }
}

/// Every dot number lies in 1..=6.
pub open spec fn valid_dots(d: Seq<u8>) -> bool {
    forall|k: int| 0 <= k < d.len() ==> 1 <= #[trigger] d[k] <= 6
}

proof fn lemma_or_small(a: u8, b: u8) by (bit_vector)
    requires
        a < 64,
        b < 64,
    ensures
        (a | b) < 64,
{
}

proof fn lemma_shift_bit(p: u8) by (bit_vector)
    requires
        1 <= p <= 6,
    ensures
        (1u8 << ((p - 1) as u8)) == (if p == 1 { 1u8 } else if p == 2 { 2u8 } else if p == 3 {
            4u8
        } else if p == 4 { 8u8 } else if p == 5 { 16u8 } else { 32u8 }),
{
}

proof fn lemma_or_nonzero(a: u8, b: u8) by (bit_vector)
    requires
        b != 0,
    ensures
        (a | b) != 0,
{
}

/// At least one raised dot gives a cell that is not blank.
pub proof fn lemma_dots_value_nonzero(d: Seq<u8>)
    requires
        valid_dots(d),
        d.len() > 0,
    ensures
        dots_value(d) != 0,
{
    assert(1 <= d[d.len() - 1] <= 6);
    lemma_or_nonzero(dots_value(d.drop_last()), dot_bit(d.last()));
}

/// A cell value always fits in six bits.
pub proof fn lemma_dots_value_small(d: Seq<u8>)
    ensures
        dots_value(d) < 64,
    decreases d.len(),
{
    if d.len() > 0 {
        lemma_dots_value_small(d.drop_last());
        lemma_or_small(dots_value(d.drop_last()), dot_bit(d.last()));
    }
}

/// Packs a list of raised dots into a cell value: bit `p - 1` is set for each dot `p`.
pub fn puntos_a_byte(puntos: &[u8]) -> (r: u8)
    requires
        valid_dots(puntos@),
    ensures
        r == dots_value(puntos@),
        r < 64,
        puntos@.len() > 0 ==> r != 0,
{
    let mut acc: u8 = 0;
    let mut i: usize = 0;
    while i < puntos.len()
        invariant
            i <= puntos@.len(),
            valid_dots(puntos@),
            acc == dots_value(puntos@.subrange(0, i as int)),
        decreases puntos@.len() - i,
    {
        let p = puntos[i];
        assert(1 <= puntos@[i as int] <= 6);
        proof {
            lemma_shift_bit(p);
        }
        assert(puntos@.subrange(0, i + 1).drop_last() == puntos@.subrange(0, i as int));
        acc = acc | (1u8 << (p - 1));
        i = i + 1;
    }
    assert(puntos@.subrange(0, i as int) == puntos@);
    proof {
        lemma_dots_value_small(puntos@);
        if puntos@.len() > 0 {
            lemma_dots_value_nonzero(puntos@);
        }
    }
    acc
}

/// The dots of each lowercase letter, including the accented Spanish letters.
pub open spec fn letter_dots(c: char) -> Option<Seq<u8>> {
    if c == 'a' { Some(seq![1u8]) }
    else if c == 'b' { Some(seq![1u8, 2]) }
    else if c == 'c' { Some(seq![1u8, 4]) }
    else if c == 'd' { Some(seq![1u8, 4, 5]) }
    else if c == 'e' { Some(seq![1u8, 5]) }
    else if c == 'f' { Some(seq![1u8, 2, 4]) }
    else if c == 'g' { Some(seq![1u8, 2, 4, 5]) }
    else if c == 'h' { Some(seq![1u8, 2, 5]) }
    else if c == 'i' { Some(seq![2u8, 4]) }
    else if c == 'j' { Some(seq![2u8, 4, 5]) }
    else if c == 'k' { Some(seq![1u8, 3]) }
    else if c == 'l' { Some(seq![1u8, 2, 3]) }
    else if c == 'm' { Some(seq![1u8, 3, 4]) }
    else if c == 'n' { Some(seq![1u8, 3, 4, 5]) }
    else if c == 'o' { Some(seq![1u8, 3, 5]) }
    else if c == 'p' { Some(seq![1u8, 2, 3, 4]) }
    else if c == 'q' { Some(seq![1u8, 2, 3, 4, 5]) }
    else if c == 'r' { Some(seq![1u8, 2, 3, 5]) }
    else if c == 's' { Some(seq![2u8, 3, 4]) }
    else if c == 't' { Some(seq![2u8, 3, 4, 5]) }
    else if c == 'u' { Some(seq![1u8, 3, 6]) }
    else if c == 'v' { Some(seq![1u8, 2, 3, 6]) }
    else if c == 'w' { Some(seq![2u8, 4, 5, 6]) }
    else if c == 'x' { Some(seq![1u8, 3, 4, 6]) }
    else if c == 'y' { Some(seq![1u8, 3, 4, 5, 6]) }
    else if c == 'z' { Some(seq![1u8, 3, 5, 6]) }
    else if c == '\u{00E1}' { Some(seq![1u8, 2, 3, 5, 6]) }
    else if c == '\u{00E9}' { Some(seq![2u8, 3, 4, 6]) }
    else if c == '\u{00ED}' { Some(seq![3u8, 4]) }
    else if c == '\u{00F3}' { Some(seq![3u8, 4, 6]) }
    else if c == '\u{00FA}' { Some(seq![2u8, 3, 4, 5, 6]) }
    else if c == '\u{00FC}' { Some(seq![1u8, 2, 5, 6]) }
    else if c == '\u{00F1}' { Some(seq![1u8, 2, 4, 5, 6]) }
    else { None }
}

/// The dots of each digit: 1..9 as the letters a..i, and 0 as j.
pub open spec fn digit_dots(c: char) -> Option<Seq<u8>> {
    if c == '1' { letter_dots('a') }
    else if c == '2' { letter_dots('b') }
    else if c == '3' { letter_dots('c') }
    else if c == '4' { letter_dots('d') }
    else if c == '5' { letter_dots('e') }
    else if c == '6' { letter_dots('f') }
    else if c == '7' { letter_dots('g') }
    else if c == '8' { letter_dots('h') }
    else if c == '9' { letter_dots('i') }
    else if c == '0' { letter_dots('j') }
    else { None }
}

/// The dots of the supported punctuation marks.
pub open spec fn punct_dots(c: char) -> Option<Seq<u8>> {
    if c == '.' { Some(seq![3u8]) }
    else if c == ',' { Some(seq![2u8]) }
    else if c == ';' { Some(seq![2u8, 3]) }
    else if c == ':' { Some(seq![2u8, 5]) }
    else if c == '-' { Some(seq![3u8, 6]) }
    else if c == '?' || c == '\u{00BF}' { Some(seq![2u8, 6]) }
    else if c == '!' || c == '\u{00A1}' { Some(seq![2u8, 3, 5]) }
    else if c == '"' || c == '\u{201C}' || c == '\u{201D}' { Some(seq![2u8, 3, 6]) }
    else if c == '(' { Some(seq![1u8, 2, 6]) }
    else if c == ')' { Some(seq![3u8, 4, 5]) }
    else { None }
}

/// A table entry as returned by the lookups: the dots, all in 1..=6.
pub open spec fn returns_dots(r: Option<Vec<u8>>, expected: Option<Seq<u8>>) -> bool {
    match r {
        Some(v) => expected == Some(v@) && valid_dots(v@) && v@.len() > 0,
        None => expected is None,
    }
}

fn dots1(a: u8) -> (r: Vec<u8>)
    ensures
        r@ == seq![a],
{
    let mut v: Vec<u8> = Vec::new();
    v.push(a);
    assert(v@ =~= seq![a]);
    v
}

fn dots2(a: u8, b: u8) -> (r: Vec<u8>)
    ensures
        r@ == seq![a, b],
{
    let mut v = dots1(a);
    v.push(b);
    assert(v@ =~= seq![a, b]);
    v
}

fn dots3(a: u8, b: u8, c: u8) -> (r: Vec<u8>)
    ensures
        r@ == seq![a, b, c],
{
    let mut v = dots2(a, b);
    v.push(c);
    assert(v@ =~= seq![a, b, c]);
    v
}

fn dots4(a: u8, b: u8, c: u8, d: u8) -> (r: Vec<u8>)
    ensures
        r@ == seq![a, b, c, d],
{
    let mut v = dots3(a, b, c);
    v.push(d);
    assert(v@ =~= seq![a, b, c, d]);
    v
}

fn dots5(a: u8, b: u8, c: u8, d: u8, e: u8) -> (r: Vec<u8>)
    ensures
        r@ == seq![a, b, c, d, e],
{
    let mut v = dots4(a, b, c, d);
    v.push(e);
    assert(v@ =~= seq![a, b, c, d, e]);
    v
}

/// The dots of a lowercase letter (a..z and the accented letters of Spanish), or
/// `None` for any other character.
pub fn letra_minuscula(c: char) -> (r: Option<Vec<u8>>)
    ensures
        returns_dots(r, letter_dots(c)),
{
    match c {
        'a' => Some(dots1(1)),
        'b' => Some(dots2(1, 2)),
        'c' => Some(dots2(1, 4)),
        'd' => Some(dots3(1, 4, 5)),
        'e' => Some(dots2(1, 5)),
        'f' => Some(dots3(1, 2, 4)),
        'g' => Some(dots4(1, 2, 4, 5)),
        'h' => Some(dots3(1, 2, 5)),
        'i' => Some(dots2(2, 4)),
        'j' => Some(dots3(2, 4, 5)),
        'k' => Some(dots2(1, 3)),
        'l' => Some(dots3(1, 2, 3)),
        'm' => Some(dots3(1, 3, 4)),
        'n' => Some(dots4(1, 3, 4, 5)),
        'o' => Some(dots3(1, 3, 5)),
        'p' => Some(dots4(1, 2, 3, 4)),
        'q' => Some(dots5(1, 2, 3, 4, 5)),
        'r' => Some(dots4(1, 2, 3, 5)),
        's' => Some(dots3(2, 3, 4)),
        't' => Some(dots4(2, 3, 4, 5)),
        'u' => Some(dots3(1, 3, 6)),
        'v' => Some(dots4(1, 2, 3, 6)),
        'w' => Some(dots4(2, 4, 5, 6)),
        'x' => Some(dots4(1, 3, 4, 6)),
        'y' => Some(dots5(1, 3, 4, 5, 6)),
        'z' => Some(dots4(1, 3, 5, 6)),
        '\u{00E1}' => Some(dots5(1, 2, 3, 5, 6)),
        '\u{00E9}' => Some(dots4(2, 3, 4, 6)),
        '\u{00ED}' => Some(dots2(3, 4)),
        '\u{00F3}' => Some(dots3(3, 4, 6)),
        '\u{00FA}' => Some(dots5(2, 3, 4, 5, 6)),
        '\u{00FC}' => Some(dots4(1, 2, 5, 6)),
        '\u{00F1}' => Some(dots5(1, 2, 4, 5, 6)),
        _ => None,
    }
}

/// The dots of a decimal digit, or `None` for any other character.
pub fn digito_a_puntos(c: char) -> (r: Option<Vec<u8>>)
    ensures
        returns_dots(r, digit_dots(c)),
{
    match c {
        '1' => Some(dots1(1)),
        '2' => Some(dots2(1, 2)),
        '3' => Some(dots2(1, 4)),
        '4' => Some(dots3(1, 4, 5)),
        '5' => Some(dots2(1, 5)),
        '6' => Some(dots3(1, 2, 4)),
        '7' => Some(dots4(1, 2, 4, 5)),
        '8' => Some(dots3(1, 2, 5)),
        '9' => Some(dots2(2, 4)),
        '0' => Some(dots3(2, 4, 5)),
        _ => None,
    }
}

/// The dots of a supported punctuation mark, or `None` for any other character.
pub fn puntuacion_a_puntos(c: char) -> (r: Option<Vec<u8>>)
    ensures
        returns_dots(r, punct_dots(c)),
{
    match c {
        '.' => Some(dots1(3)),
        ',' => Some(dots1(2)),
        ';' => Some(dots2(2, 3)),
        ':' => Some(dots2(2, 5)),
        // the typographic hyphen, distinct from the division mark at a line break
        '-' => Some(dots2(3, 6)),
        '?' | '\u{00BF}' => Some(dots2(2, 6)),
        '!' | '\u{00A1}' => Some(dots3(2, 3, 5)),
        '"' | '\u{201C}' | '\u{201D}' => Some(dots3(2, 3, 6)),
        '(' => Some(dots3(1, 2, 6)),
        ')' => Some(dots3(3, 4, 5)),
        _ => None,
    }
}

/// Cell value of the capital indicator, dots 4 and 6.
pub const PREFIJO_MAYUSCULA: u8 = 40;

/// Cell value of the numeric indicator, dots 3, 4, 5 and 6.
pub const PREFIJO_NUMERO: u8 = 60;

/// Cell value of the division mark set at the end of a line that splits a word,
/// dots 3 and 6.
pub const GUION_DIVISION: u8 = 36;

/// The prefix and mark values are the packings of their dots.
pub proof fn lemma_prefix_values()
    ensures
        PREFIJO_MAYUSCULA == dots_value(seq![4u8, 6]),
        PREFIJO_NUMERO == dots_value(seq![3u8, 4, 5, 6]),
        GUION_DIVISION == dots_value(seq![3u8, 6]),
{
    reveal_with_fuel(dots_value, 5);
    assert(seq![4u8, 6].drop_last() == seq![4u8]);
    assert(seq![4u8].drop_last() =~= Seq::<u8>::empty());
    assert(seq![3u8, 6].drop_last() == seq![3u8]);
    assert(seq![3u8].drop_last() =~= Seq::<u8>::empty());
    assert(seq![3u8, 4, 5, 6].drop_last() == seq![3u8, 4, 5]);
    assert(seq![3u8, 4, 5].drop_last() == seq![3u8, 4]);
    assert(seq![3u8, 4].drop_last() == seq![3u8]);
    assert((0u8 | 8u8) | 32u8 == 40u8) by (bit_vector);
    assert((0u8 | 4u8) | 32u8 == 36u8) by (bit_vector);
    assert((((0u8 | 4u8) | 8u8) | 16u8) | 32u8 == 60u8) by (bit_vector);
}

/// The division mark as a cell value.
pub fn byte_guion_division() -> (r: u8)
    ensures
        r == GUION_DIVISION,
        r == dots_value(seq![3u8, 6]),
{
    proof {
        lemma_prefix_values();
    }
    let d: [u8; 2] = [3, 6];
    let r = puntos_a_byte(&d);
    assert(d@ == seq![3u8, 6]);
    r
}

/// Whether a character has Unicode's Uppercase property.
pub uninterp spec fn is_upper(c: char) -> bool;

/// Whether a character has Unicode's Alphabetic property.
pub uninterp spec fn is_alpha(c: char) -> bool;

/// The first character of the Unicode lowercase mapping of a character.
pub uninterp spec fn first_lower(c: char) -> char;

/// Relies on `char::is_uppercase`: a function of the character alone.
#[verifier::external_body]
pub(crate) fn char_is_uppercase(c: char) -> (r: bool)
    ensures
        r == is_upper(c),
{
    c.is_uppercase()
}

/// Relies on `char::is_alphabetic`: a function of the character alone.
#[verifier::external_body]
pub(crate) fn char_is_alphabetic(c: char) -> (r: bool)
    ensures
        r == is_alpha(c),
{
    c.is_alphabetic()
}

/// Relies on `char::to_lowercase`: the first character that its mapping yields
/// (the mapping is never empty), a function of the character alone.
#[verifier::external_body]
pub(crate) fn char_first_lower(c: char) -> (r: char)
    ensures
        r == first_lower(c),
{
    c.to_lowercase().next().unwrap_or(c)
}

/// Whether a character is an uppercase letter.
pub fn es_mayuscula(c: char) -> (r: bool)
    ensures
        r == is_upper(c),
{
    char_is_uppercase(c)
}

/// The lowercase form of a letter: the accented capitals of Spanish by their
/// own table, every other character by Unicode's lowercase mapping.
pub open spec fn lower_letter(c: char) -> char {
    if c == '\u{00C1}' { '\u{00E1}' }
    else if c == '\u{00C9}' { '\u{00E9}' }
    else if c == '\u{00CD}' { '\u{00ED}' }
    else if c == '\u{00D3}' { '\u{00F3}' }
    else if c == '\u{00DA}' { '\u{00FA}' }
    else if c == '\u{00DC}' { '\u{00FC}' }
    else if c == '\u{00D1}' { '\u{00F1}' }
    else { first_lower(c) }
}

/// Folds a letter to lowercase before the table lookup.
pub fn a_minuscula(c: char) -> (r: char)
    ensures
        r == lower_letter(c),
{
    match c {
        '\u{00C1}' => '\u{00E1}',
        '\u{00C9}' => '\u{00E9}',
        '\u{00CD}' => '\u{00ED}',
        '\u{00D3}' => '\u{00F3}',
        '\u{00DA}' => '\u{00FA}',
        '\u{00DC}' => '\u{00FC}',
        '\u{00D1}' => '\u{00F1}',
        _ => char_first_lower(c),
    }
}

} // verus!
