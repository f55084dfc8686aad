//! Spanish text to uncontracted braille: a dot-pattern table, a syllabifier,
//! an encoder that marks capitals, numbers and syllables on every cell, and a
//! line packer that writes fixed lines of 30 cells closed by 0xFF.
use vstd::prelude::*;

pub mod puntos;
pub mod silabas;
pub mod codificador;
pub mod formato;
pub mod epub;

use crate::codificador::{
    codificar_texto, encode, prefixes_followed, words_fit, palabras_caben, CeldaInfo,
};
use crate::formato::{
    formatear_lineas, formatted, lines_ok, placed, prefixes_attached, kept_together, in_long_word,
};

verus! {

/// Each indicator outside a word longer than a line landed right before the
/// cell it modifies.
pub open spec fn indicators_attached(cells: Seq<CeldaInfo>, pos: Seq<int>) -> bool {
    forall|j: int|
        0 <= j < cells.len() && (#[trigger] cells[j]).es_prefijo && !in_long_word(cells, j) ==> j + 1
            < cells.len() && pos[j + 1] == pos[j] + 1
}

/// Where every indicator is followed by the cell it modifies, the ones that the
/// packing must keep beside it are all but those in words longer than a line.
proof fn lemma_indicators_attached(cells: Seq<CeldaInfo>, pos: Seq<int>)
    requires
        prefixes_followed(cells),
        prefixes_attached(cells, pos),
    ensures
        indicators_attached(cells, pos),
{
    assert forall|j: int|
        0 <= j < cells.len() && (#[trigger] cells[j]).es_prefijo && !in_long_word(cells, j) implies j
        + 1 < cells.len() && pos[j + 1] == pos[j] + 1 by {
        if j > 0 && cells[j - 1].es_prefijo {
            assert(!cells[j].es_prefijo);
        }
        assert(kept_together(cells, j));
    }
}

/// The byte stream of a text: its cells packed into lines.
pub open spec fn braille_of(t: Seq<char>) -> Seq<u8> {
    formatted(encode(t))
}

/// Encodes a text and packs its cells into lines: a multiple of 31 bytes, each
/// line 30 cell values below 64 followed by 0xFF. Every cell of the text lands
/// at a place of the output, and every numeric or capital indicator lands
/// right before the cell it modifies, on the same line, unless it belongs to a
/// word longer than a line that had to be cut into full lines.
pub fn codificar_y_formatear(texto: &str) -> (r: Vec<u8>)
    requires
        words_fit(texto@),
    ensures
        r@ == braille_of(texto@),
        lines_ok(r@),
        r@.len() % 31 == 0,
        forall|k: int| 0 <= k < r@.len() && k % 31 == 30 ==> r@[k] == 0xFF,
        forall|k: int| 0 <= k < r@.len() && k % 31 != 30 ==> r@[k] < 64,
        exists|pos: Seq<int>|
            #[trigger] placed(encode(texto@), r@, pos) && indicators_attached(encode(texto@), pos),
{
    let celdas = codificar_texto(texto);
    let r = formatear_lineas(celdas.as_slice());
    proof {
        let pos = choose|pos: Seq<int>|
            #[trigger] placed(celdas@, r@, pos) && prefixes_attached(celdas@, pos);
        lemma_indicators_attached(celdas@, pos);
        assert(placed(encode(texto@), r@, pos));
    }
    assert forall|k: int| 0 <= k < r@.len() && k % 31 == 30 implies r@[k] == 0xFF by {
        assert(r@[k] == 0xFF);
    }
    assert forall|k: int| 0 <= k < r@.len() && k % 31 != 30 implies r@[k] < 64 by {
        assert(r@[k] < 64);
    }
    r
}

/// The byte stream of a text, or `None` where a word is too long for its
/// syllables to be counted.
pub fn codificar_y_formatear_si_cabe(texto: &str) -> (r: Option<Vec<u8>>)
    ensures
        r is Some <==> words_fit(texto@),
        r matches Some(v) ==> v@ == braille_of(texto@),
{
    if palabras_caben(texto) {
        Some(codificar_y_formatear(texto))
    } else {
        None
    }
}

/// The output is a function of the text alone: two encodings of the same text
/// are byte for byte the same.
pub proof fn lemma_determinista(t: Seq<char>, r1: Seq<u8>, r2: Seq<u8>)
    requires
        r1 == braille_of(t),
        r2 == braille_of(t),
    ensures
        r1 == r2,
{
}

} // verus!
