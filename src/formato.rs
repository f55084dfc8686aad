//! Line packing: braille cells into fixed lines of 30 cells, each closed by a
//! terminator byte, breaking words only at syllable starts.
use vstd::prelude::*;
use crate::codificador::{CeldaInfo, cells_small};
use crate::puntos::{GUION_DIVISION, byte_guion_division};

verus! {

/// Cells in one line.
pub const CELDAS_POR_LINEA: usize = 30;

/// The byte that closes every line.
pub const CTRL_SALTO_LINEA: u8 = 0xFF;

/// The cell values of a run of cells.
pub open spec fn values(run: Seq<CeldaInfo>) -> Seq<u8> {
    run.map_values(|c: CeldaInfo| c.byte)
}

/// A line padded with blank cells to the full width and closed by the terminator.
pub open spec fn flushed(line: Seq<u8>) -> Seq<u8> {
    (line + Seq::new((30 - line.len()) as nat, |_i: int| 0u8)).push(0xFF)
}

/// A syllable start inside the run, at `k`, where the line may break: neither
/// the cell nor the one before it is a prefix.
pub open spec fn break_ok(run: Seq<CeldaInfo>, k: int) -> bool {
    &&& 0 < k < run.len()
    &&& run[k].inicio_silaba
    &&& !run[k].es_prefijo
    &&& !run[k - 1].es_prefijo
}

/// The last place to break at or before `k`, or 0 if there is none.
pub open spec fn last_break(run: Seq<CeldaInfo>, k: int) -> int
    decreases k,
{
    if k <= 0 {
        0
    } else if break_ok(run, k) {
        k
    } else {
        last_break(run, k - 1)
    }
}

/// Cuts a run of values that does not fit one line into full lines; the last
/// piece is left open. Returns the output and the open line.
pub open spec fn force_split(b: Seq<u8>, out: Seq<u8>) -> (Seq<u8>, Seq<u8>)
    decreases b.len(),
{
    if b.len() <= 30 {
        (out, b)
    } else {
        force_split(b.subrange(30, b.len() as int), out + flushed(b.subrange(0, 30)))
    }
}

/// Places the cells of a word after the output `out` and the open line `line`:
/// whole if it fits; else split after the last syllable that fits with a
/// division mark; else moved whole to a new line; else, when longer than a line,
/// cut into full lines. Returns the output and the open line.
pub open spec fn place_word(run: Seq<CeldaInfo>, out: Seq<u8>, line: Seq<u8>) -> (
    Seq<u8>,
    Seq<u8>,
)
    decreases run.len(),
{
    let rest = 30 - line.len();
    if run.len() <= rest {
        (out, line + values(run))
    } else {
        let room = if rest > 0 { rest - 1 } else { 0 };
        let k = last_break(run, if room < run.len() - 1 { room } else { run.len() - 1 });
        if 0 < k < run.len() {
            place_word(
                run.subrange(k, run.len() as int),
                out + flushed((line + values(run.subrange(0, k))).push(GUION_DIVISION)),
                seq![],
            )
        } else {
            let out2 = if line.len() > 0 { out + flushed(line) } else { out };
            if run.len() > 30 {
                force_split(values(run), out2)
            } else {
                (out2, values(run))
            }
        }
    }
}

/// A word is broken only at a syllable start that neither is nor follows a
/// prefix: the break chosen within the first `k` cells is 0 (none) or such a
/// place.
pub proof fn lemma_break_keeps_prefix(run: Seq<CeldaInfo>, k: int)
    ensures
        last_break(run, k) == 0 || (break_ok(run, last_break(run, k)) && 0 < last_break(run, k)
            <= k),
        last_break(run, k) > 0 ==> !run[last_break(run, k) - 1].es_prefijo && !run[last_break(
            run,
            k,
        )].es_prefijo,
    decreases k,
{
    if k > 0 && !break_ok(run, k) {
        lemma_break_keeps_prefix(run, k - 1);
    }
}

/// A word longer than a line with no place to break that fits goes to a fresh
/// line (the open one, if not empty, is flushed) and is cut into full lines of
/// 30 cells with no division mark; the last piece stays open.
pub proof fn lemma_long_word_cut(run: Seq<CeldaInfo>, out: Seq<u8>, line: Seq<u8>)
    requires
        run.len() > 30,
        line.len() <= 30,
        last_break(
            run,
            if (if 30 - line.len() > 0 { 30 - line.len() - 1 } else { 0 }) < run.len() - 1 {
                if 30 - line.len() > 0 { 30 - line.len() - 1 } else { 0 }
            } else {
                run.len() - 1
            },
        ) == 0,
    ensures
        place_word(run, out, line) == force_split(
            values(run),
            if line.len() > 0 { out + flushed(line) } else { out },
        ),
{
}

/// Cutting into full lines: every piece but the last is 30 values closed by the
/// terminator, the values in order, and the last piece (1 to 30 values) stays
/// open.
pub proof fn lemma_force_split_chunks(b: Seq<u8>, out: Seq<u8>)
    requires
        b.len() > 0,
    ensures
        ({
            let q = (b.len() - 1) as int / 30;
            &&& force_split(b, out).1 == b.subrange(30 * q, b.len() as int)
            &&& force_split(b, out).0.len() == out.len() + 31 * q
            &&& force_split(b, out).0.subrange(0, out.len() as int) == out
            &&& forall|j: int, t: int|
                0 <= j < q && 0 <= t < 31 ==> #[trigger] force_split(b, out).0[out.len() + 31 * j + t]
                    == if t == 30 { 0xFF } else { b[30 * j + t] }
        }),
    decreases b.len(),
{
    let q = (b.len() - 1) as int / 30;
    if b.len() <= 30 {
        assert(q == 0);
        assert(b.subrange(0, b.len() as int) =~= b);
        assert(out.subrange(0, out.len() as int) =~= out);
    } else {
        let rest = b.subrange(30, b.len() as int);
        let out2 = out + flushed(b.subrange(0, 30));
        lemma_force_split_chunks(rest, out2);
        let q2 = (rest.len() - 1) as int / 30;
        assert(q2 == q - 1) by {
            assert(rest.len() - 1 == b.len() - 1 - 30);
        }
        let r = force_split(b, out);
        assert(r == force_split(rest, out2));
        assert(flushed(b.subrange(0, 30)).len() == 31);
        assert(rest.subrange(30 * q2, rest.len() as int) =~= b.subrange(30 * q, b.len() as int));
        assert(r.0.subrange(0, out.len() as int) =~= out) by {
            assert(r.0.subrange(0, out2.len() as int) == out2);
            assert(r.0.subrange(0, out.len() as int) =~= out2.subrange(0, out.len() as int));
        }
        assert forall|j: int, t: int| 0 <= j < q && 0 <= t < 31 implies #[trigger] r.0[out.len() + 31
            * j + t] == if t == 30 { 0xFF } else { b[30 * j + t] } by {
            if j == 0 {
                assert(r.0.subrange(0, out2.len() as int)[out.len() + t] == out2[out.len() + t]);
                assert(out2[out.len() + t] == flushed(b.subrange(0, 30))[t]);
            } else {
                assert(r.0[out2.len() + 31 * (j - 1) + t] == if t == 30 { 0xFF } else { rest[30 * (j - 1) + t] });
                assert(out.len() + 31 * j + t == out2.len() + 31 * (j - 1) + t);
            }
        }
    }
}

/// The end of the run of word cells that starts at `i`.
pub open spec fn word_run_end(cells: Seq<CeldaInfo>, i: int) -> int
    decreases cells.len() - i,
{
    if i >= cells.len() || cells[i].silaba_idx is None {
        i
    } else {
        word_run_end(cells, i + 1)
    }
}

/// The line that room for `need` more cells calls for, after the output that
/// goes with it: the open one, or a fresh one once it is flushed.
pub open spec fn make_room(out: Seq<u8>, line: Seq<u8>, need: int) -> (Seq<u8>, Seq<u8>) {
    if line.len() + need > 30 {
        (out + flushed(line), seq![])
    } else {
        (out, line)
    }
}

/// The bytes for the cells from `i` on, after the output `out` and the open
/// line `line`.
pub open spec fn format_from(cells: Seq<CeldaInfo>, i: int, out: Seq<u8>, line: Seq<u8>) -> Seq<
    u8,
>
    decreases cells.len() - i,
{
    if i < 0 || i >= cells.len() {
        if line.len() > 0 {
            out + flushed(line)
        } else {
            out
        }
    } else {
        let c = cells[i];
        if c.byte == 0 && !c.es_prefijo {
            let (o, l) = make_room(out, line, 1);
            format_from(cells, i + 1, o, l.push(0))
        } else if c.inicio_palabra && c.silaba_idx is Some {
            let j = word_run_end(cells, i);
            if j <= i || j > cells.len() {
                out
            } else {
                let (o, l) = place_word(cells.subrange(i, j), out, line);
                format_from(cells, j, o, l)
            }
        } else if c.es_prefijo && i + 1 < cells.len() {
            let (o, l) = make_room(out, line, 2);
            format_from(cells, i + 2, o, l.push(c.byte).push(cells[i + 1].byte))
        } else {
            let (o, l) = make_room(out, line, 1);
            format_from(cells, i + 1, o, l.push(c.byte))
        }
    }
}

/// The byte stream of a sequence of cells.
pub open spec fn formatted(cells: Seq<CeldaInfo>) -> Seq<u8> {
    format_from(cells, 0, seq![], seq![])
}

/// Whole lines: a multiple of 31 bytes, each line 30 cell values below 64 and
/// then the terminator.
pub open spec fn lines_ok(out: Seq<u8>) -> bool {
    &&& out.len() % 31 == 0
    &&& forall|k: int|
        0 <= k < out.len() ==> if k % 31 == 30 {
            #[trigger] out[k] == 0xFF
        } else {
            out[k] < 64
        }
}

/// An open line: at most 30 cell values, each below 64.
pub open spec fn line_ok(line: Seq<u8>) -> bool {
    &&& line.len() <= 30
    &&& forall|k: int| 0 <= k < line.len() ==> #[trigger] line[k] < 64
}

proof fn lemma_mod_shift(m: int, j: int)
    requires
        0 <= m,
        0 <= j < 31,
    ensures
        (31 * m + j) % 31 == j,
        (31 * m + 31) % 31 == 0,
{
    vstd::arithmetic::div_mod::lemma_fundamental_div_mod_converse(31 * m + j, 31, m, j);
    vstd::arithmetic::div_mod::lemma_fundamental_div_mod_converse(31 * m + 31, 31, m + 1, 0);
}

proof fn lemma_flushed_ok(out: Seq<u8>, line: Seq<u8>)
    requires
        lines_ok(out),
        line_ok(line),
    ensures
        lines_ok(out + flushed(line)),
        flushed(line).len() == 31,
{
    let f = flushed(line);
    let r = out + f;
    let m: int = out.len() as int / 31;
    assert(out.len() == 31 * m) by {
        vstd::arithmetic::div_mod::lemma_fundamental_div_mod(out.len() as int, 31);
    }
    assert(f.len() == 31);
    lemma_mod_shift(m, 0);
    assert forall|k: int| 0 <= k < r.len() implies if k % 31 == 30 {
        #[trigger] r[k] == 0xFF
    } else {
        r[k] < 64
    } by {
        if k >= out.len() {
            let j = k - out.len();
            lemma_mod_shift(m, j);
            assert(r[k] == f[j]);
        }
    }
}

/// `pos[j]` is where cell `j` landed in `out`.
pub open spec fn placed(cells: Seq<CeldaInfo>, out: Seq<u8>, pos: Seq<int>) -> bool {
    &&& pos.len() == cells.len()
    &&& forall|j: int|
        0 <= j < cells.len() ==> 0 <= #[trigger] pos[j] < out.len() && out[pos[j]]
            == cells[j].byte
}

/// Cell `j` is the last cell of a word and the cell after it lies outside words.
pub open spec fn ends_its_word(cells: Seq<CeldaInfo>, j: int) -> bool {
    cells[j].silaba_idx is Some && cells[j + 1].silaba_idx is None
}

/// Cells `a..b` all belong to words.
pub open spec fn word_span(cells: Seq<CeldaInfo>, a: int, b: int) -> bool {
    forall|t: int| a <= t < b ==> (#[trigger] cells[t]).silaba_idx is Some
}

/// Cell `j` lies in a run of word cells longer than a line.
pub open spec fn in_long_word(cells: Seq<CeldaInfo>, j: int) -> bool {
    exists|a: int, b: int|
        #[trigger] word_span(cells, a, b) && a <= j < b <= cells.len() && b - a > 30
}

/// A prefix cell that must stay beside the cell after it: one that does not
/// itself follow a prefix, and is followed by a cell of its own word or stands
/// outside words, in no run of word cells longer than a line.
pub open spec fn kept_together(cells: Seq<CeldaInfo>, j: int) -> bool {
    &&& 0 <= j
    &&& j + 1 < cells.len()
    &&& cells[j].es_prefijo
    &&& !(j > 0 && cells[j - 1].es_prefijo)
    &&& !ends_its_word(cells, j)
    &&& !in_long_word(cells, j)
}

/// Each such prefix landed right before the cell it modifies.
pub open spec fn prefixes_attached(cells: Seq<CeldaInfo>, pos: Seq<int>) -> bool {
    forall|j: int| #[trigger] kept_together(cells, j) ==> pos[j + 1] == pos[j] + 1
}

/// `b` extends `a`.
pub open spec fn extends(a: Seq<u8>, b: Seq<u8>) -> bool {
    a.len() <= b.len() && b.subrange(0, a.len() as int) == a
}

/// The first `ps.len()` cells landed at `ps` in the stream `st`.
pub open spec fn positions_ok(cells: Seq<CeldaInfo>, ps: Seq<int>, st: Seq<u8>) -> bool {
    &&& ps.len() <= cells.len()
    &&& forall|j: int|
        0 <= j < ps.len() ==> 0 <= #[trigger] ps[j] < st.len() && st[ps[j]] == cells[j].byte
}

proof fn lemma_keep_positions(cells: Seq<CeldaInfo>, ps: Seq<int>, a: Seq<u8>, b: Seq<u8>)
    requires
        extends(a, b),
        positions_ok(cells, ps, a),
    ensures
        positions_ok(cells, ps, b),
{
    assert forall|j: int| 0 <= j < ps.len() implies 0 <= #[trigger] ps[j] < b.len() && b[ps[j]]
        == cells[j].byte by {
        assert(b.subrange(0, a.len() as int)[ps[j]] == a[ps[j]]);
    }
}

proof fn lemma_extends_trans(a: Seq<u8>, b: Seq<u8>, c: Seq<u8>)
    requires
        extends(a, b),
        extends(b, c),
    ensures
        extends(a, c),
{
    assert(c.subrange(0, a.len() as int) =~= b.subrange(0, a.len() as int));
}

/// `ps` followed by the consecutive positions `base`, `base + 1`, ... for cells `lo..hi`.
pub open spec fn run_positions(ps: Seq<int>, base: int, lo: int, hi: int) -> Seq<int> {
    ps + Seq::new((hi - lo) as nat, |t: int| base + t)
}

/// Cells `lo..hi` appended to the stream `st` land one after another at its end.
proof fn lemma_add_positions(cells: Seq<CeldaInfo>, ps: Seq<int>, st: Seq<u8>, lo: int, hi: int)
    requires
        ps.len() == lo,
        0 <= lo <= hi <= cells.len(),
        positions_ok(cells, ps, st),
    ensures
        positions_ok(
            cells,
            run_positions(ps, st.len() as int, lo, hi),
            st + values(cells.subrange(lo, hi)),
        ),
        extends(st, st + values(cells.subrange(lo, hi))),
        forall|j: int|
            lo <= j < hi ==> #[trigger] run_positions(ps, st.len() as int, lo, hi)[j]
                == st.len() + (j - lo),
{
    let nps = run_positions(ps, st.len() as int, lo, hi);
    let s2 = st + values(cells.subrange(lo, hi));
    assert forall|j: int| 0 <= j < nps.len() implies 0 <= #[trigger] nps[j] < s2.len() && s2[nps[j]]
        == cells[j].byte by {
        if j >= lo {
            assert(s2[nps[j]] == values(cells.subrange(lo, hi))[j - lo]);
        }
    }
    assert(s2.subrange(0, st.len() as int) =~= st);
}

/// Appending cells one after another keeps every prefix among them beside the
/// cell after it, and the cell before them is no prefix.
proof fn lemma_adjacent_after_add(cells: Seq<CeldaInfo>, ps: Seq<int>, base: int, lo: int, hi: int)
    requires
        ps.len() == lo,
        0 <= lo <= hi <= cells.len(),
        lo > 0 ==> !cells[lo - 1].es_prefijo,
        forall|j: int|
            0 <= j < ps.len() - 1 && (#[trigger] cells[j]).es_prefijo ==> ps[j + 1] == ps[j] + 1,
    ensures
        forall|j: int|
            0 <= j < hi - 1 && (#[trigger] cells[j]).es_prefijo ==> run_positions(ps, base, lo, hi)[j
                + 1] == run_positions(ps, base, lo, hi)[j] + 1,
{
    let nps = run_positions(ps, base, lo, hi);
    assert forall|j: int| 0 <= j < hi - 1 && (#[trigger] cells[j]).es_prefijo implies nps[j + 1]
        == nps[j] + 1 by {
        if j < lo - 1 {
            assert(nps[j] == ps[j] && nps[j + 1] == ps[j + 1]);
        } else if j >= lo {
            assert(nps[j] == base + (j - lo) && nps[j + 1] == base + (j + 1 - lo));
        }
    }
}

proof fn lemma_flush_extends(out: Seq<u8>, line: Seq<u8>)
    ensures
        extends(out + line, out + flushed(line)),
{
    assert((out + flushed(line)).subrange(0, (out + line).len() as int) =~= out + line);
}

/// Appends the values of `celdas[a..b]` to the line.
fn agregar(linea: &mut Vec<u8>, celdas: &[CeldaInfo], a: usize, b: usize)
    requires
        a <= b <= celdas@.len(),
        old(linea)@.len() + (b - a) <= 30,
        line_ok(old(linea)@),
        cells_small(celdas@),
    ensures
        final(linea)@ == old(linea)@ + values(celdas@.subrange(a as int, b as int)),
        line_ok(final(linea)@),
{
    let ghost init = linea@;
    let mut k = a;
    while k < b
        invariant
            a <= k <= b <= celdas@.len(),
            init.len() + (b - a) <= 30,
            linea@ == init + values(celdas@.subrange(a as int, k as int)),
            line_ok(linea@),
            cells_small(celdas@),
        decreases b - k,
    {
        linea.push(celdas[k].byte);
        k = k + 1;
        assert(linea@ =~= init + values(celdas@.subrange(a as int, k as int)));
    }
}

/// Pads the line to the full width, closes it and moves it to the output.
fn volcar(linea: &mut Vec<u8>, resultado: &mut Vec<u8>)
    requires
        line_ok(old(linea)@),
        lines_ok(old(resultado)@),
    ensures
        final(resultado)@ == old(resultado)@ + flushed(old(linea)@),
        final(linea)@ == Seq::<u8>::empty(),
        lines_ok(final(resultado)@),
{
    let ghost init = linea@;
    while linea.len() < CELDAS_POR_LINEA
        invariant
            init.len() <= linea@.len() <= 30,
            linea@ == init + Seq::new((linea@.len() - init.len()) as nat, |_i: int| 0u8),
        decreases 30 - linea@.len(),
    {
        linea.push(0);
        assert(linea@ =~= init + Seq::new((linea@.len() - init.len()) as nat, |_i: int| 0u8));
    }
    let mut k: usize = 0;
    while k < linea.len()
        invariant
            k <= linea@.len() == 30,
            linea@ == init + Seq::new((30 - init.len()) as nat, |_i: int| 0u8),
            resultado@ == old(resultado)@ + linea@.subrange(0, k as int),
        decreases 30 - k,
    {
        resultado.push(linea[k]);
        k = k + 1;
        assert(resultado@ =~= old(resultado)@ + linea@.subrange(0, k as int));
    }
    resultado.push(CTRL_SALTO_LINEA);
    linea.clear();
    assert(resultado@ =~= old(resultado)@ + flushed(init));
    proof {
        lemma_flushed_ok(old(resultado)@, init);
    }
}

fn corte_valido(celdas: &[CeldaInfo], ini: usize, k: usize) -> (r: bool)
    requires
        0 < k,
        ini + k < celdas@.len(),
    ensures
        r == break_ok(celdas@.subrange(ini as int, celdas@.len() as int), k as int),
{
    let c = celdas[ini + k];
    c.inicio_silaba && !c.es_prefijo && !celdas[ini + k - 1].es_prefijo
}

/// The last place at or before `lim` where the word `celdas[ini..]` may break,
/// or 0 if there is none.
fn ultimo_corte(celdas: &[CeldaInfo], ini: usize, lim: usize) -> (r: usize)
    requires
        ini + lim < celdas@.len(),
    ensures
        r == last_break(celdas@.subrange(ini as int, celdas@.len() as int), lim as int),
        r <= lim,
        r > 0 ==> break_ok(celdas@.subrange(ini as int, celdas@.len() as int), r as int),
{
    let ghost sub = celdas@.subrange(ini as int, celdas@.len() as int);
    let mut k = lim;
    while k > 0 && !corte_valido(celdas, ini, k)
        invariant
            k <= lim,
            ini + lim < celdas@.len(),
            sub == celdas@.subrange(ini as int, celdas@.len() as int),
            last_break(sub, k as int) == last_break(sub, lim as int),
        decreases k,
    {
        k = k - 1;
    }
    k
}

/// Places the cells of one word on the lines: whole if they fit; else broken
/// after the last syllable that fits, with a division mark; else moved whole
/// to a fresh line; and a word longer than a line is cut into full lines.
pub fn colocar_palabra(celdas: &[CeldaInfo], linea: &mut Vec<u8>, resultado: &mut Vec<u8>)
    requires
        line_ok(old(linea)@),
        lines_ok(old(resultado)@),
        cells_small(celdas@),
    ensures
        final(resultado)@ == place_word(celdas@, old(resultado)@, old(linea)@).0,
        final(linea)@ == place_word(celdas@, old(resultado)@, old(linea)@).1,
        line_ok(final(linea)@),
        lines_ok(final(resultado)@),
{
    let _ = colocar_con_posiciones(celdas, linea, resultado);
}

/// `colocar_palabra`, which also tells where each cell landed in the output
/// and the open line taken together: a word no longer than a line keeps each
/// prefix beside the cell after it.
#[verifier::rlimit(80)]
fn colocar_con_posiciones(celdas: &[CeldaInfo], linea: &mut Vec<u8>, resultado: &mut Vec<u8>) -> (pos: Ghost<Seq<int>>)
    requires
        line_ok(old(linea)@),
        lines_ok(old(resultado)@),
        cells_small(celdas@),
    ensures
        final(resultado)@ == place_word(celdas@, old(resultado)@, old(linea)@).0,
        final(linea)@ == place_word(celdas@, old(resultado)@, old(linea)@).1,
        line_ok(final(linea)@),
        lines_ok(final(resultado)@),
        extends(old(resultado)@ + old(linea)@, final(resultado)@ + final(linea)@),
        placed(celdas@, final(resultado)@ + final(linea)@, pos@),
        celdas@.len() <= 30 ==> forall|j: int|
            0 <= j < celdas@.len() - 1 && (#[trigger] celdas@[j]).es_prefijo ==> pos@[j + 1] == pos@[j]
                + 1,
{
    let ghost goal = place_word(celdas@, old(resultado)@, old(linea)@);
    let ghost s0 = old(resultado)@ + old(linea)@;
    let ghost mut ps: Seq<int> = seq![];
    let n = celdas.len();
    let mut ini: usize = 0;
    assert(celdas@.subrange(0, n as int) =~= celdas@);
    assert(s0.subrange(0, s0.len() as int) =~= s0);
    loop
        invariant_except_break
            place_word(celdas@.subrange(ini as int, n as int), resultado@, linea@) == goal,
            ps.len() == ini,
            ini > 0 ==> !celdas@[ini - 1].es_prefijo,
        invariant
            ini <= n == celdas@.len(),
            line_ok(linea@),
            lines_ok(resultado@),
            cells_small(celdas@),
            extends(s0, resultado@ + linea@),
            positions_ok(celdas@, ps, resultado@ + linea@),
            n <= 30 ==> forall|j: int|
                0 <= j < ps.len() - 1 && (#[trigger] celdas@[j]).es_prefijo ==> ps[j + 1] == ps[j]
                    + 1,
        ensures
            resultado@ == goal.0,
            linea@ == goal.1,
            ps.len() == n,
        decreases n - ini,
    {
        let ghost sub = celdas@.subrange(ini as int, n as int);
        let ghost st = resultado@ + linea@;
        let total = n - ini;
        let restante = CELDAS_POR_LINEA - linea.len();
        if total <= restante {
            let ghost out0 = resultado@;
            let ghost line0 = linea@;
            assert(place_word(sub, out0, line0) == (out0, line0 + values(sub)));
            agregar(linea, celdas, ini, n);
            proof {
                lemma_add_positions(celdas@, ps, st, ini as int, n as int);
                if n <= 30 {
                    lemma_adjacent_after_add(celdas@, ps, st.len() as int, ini as int, n as int);
                }
                assert(resultado@ + linea@ =~= st + values(sub));
                lemma_extends_trans(s0, st, resultado@ + linea@);
                ps = run_positions(ps, st.len() as int, ini as int, n as int);
            }
            assert(linea@ == line0 + values(sub));
            assert(resultado@ == goal.0 && linea@ == goal.1);
            break;
        }
        let espacio_con_guion = if restante > 0 { restante - 1 } else { 0 };
        let lim = if espacio_con_guion < total - 1 { espacio_con_guion } else { total - 1 };
        let k = ultimo_corte(celdas, ini, lim);
        if k > 0 {
            let ghost out0 = resultado@;
            let ghost line0 = linea@;
            agregar(linea, celdas, ini, ini + k);
            assert(celdas@.subrange(ini as int, ini + k) =~= sub.subrange(0, k as int));
            let ghost s1 = resultado@ + linea@;
            proof {
                lemma_add_positions(celdas@, ps, st, ini as int, ini + k);
                if n <= 30 {
                    lemma_adjacent_after_add(celdas@, ps, st.len() as int, ini as int, ini + k);
                }
                assert(s1 =~= st + values(celdas@.subrange(ini as int, ini + k)));
                lemma_extends_trans(s0, st, s1);
                assert(sub[k - 1] == celdas@[ini + k - 1]);
                ps = run_positions(ps, st.len() as int, ini as int, ini + k);
            }
            linea.push(byte_guion_division());
            assert(line_ok(linea@));
            let ghost s2 = resultado@ + linea@;
            proof {
                assert(s2 =~= s1.push(GUION_DIVISION));
                assert(s2.subrange(0, s1.len() as int) =~= s1);
                lemma_extends_trans(s0, s1, s2);
                lemma_keep_positions(celdas@, ps, s1, s2);
            }
            let ghost res1 = resultado@;
            let ghost lin1 = linea@;
            volcar(linea, resultado);
            proof {
                lemma_flush_extends(res1, lin1);
                assert(resultado@ + linea@ =~= res1 + flushed(lin1));
                lemma_extends_trans(s0, s2, resultado@ + linea@);
                lemma_keep_positions(celdas@, ps, s2, resultado@ + linea@);
            }
            assert(sub.subrange(k as int, sub.len() as int) =~= celdas@.subrange(
                ini + k,
                n as int,
            ));
            ini = ini + k;
        } else {
            let ghost out0 = resultado@;
            let ghost line0 = linea@;
            let ghost out2 = if line0.len() > 0 { out0 + flushed(line0) } else { out0 };
            assert(place_word(sub, out0, line0) == if sub.len() > 30 {
                force_split(values(sub), out2)
            } else {
                (out2, values(sub))
            });
            if linea.len() > 0 {
                volcar(linea, resultado);
                proof {
                    lemma_flush_extends(out0, line0);
                }
            } else {
                assert(st.subrange(0, st.len() as int) =~= st);
                assert(resultado@ + linea@ =~= st);
            }
            assert(resultado@ == out2);
            proof {
                lemma_extends_trans(s0, st, resultado@ + linea@);
                lemma_keep_positions(celdas@, ps, st, resultado@ + linea@);
            }
            if total > CELDAS_POR_LINEA {
                let ghost split_goal = force_split(values(sub), resultado@);
                let mut j = ini;
                assert(celdas@.subrange(j as int, n as int) =~= sub);
                while n - j > CELDAS_POR_LINEA
                    invariant
                        ini <= j <= n == celdas@.len(),
                        linea@ == Seq::<u8>::empty(),
                        lines_ok(resultado@),
                        cells_small(celdas@),
                        force_split(values(celdas@.subrange(j as int, n as int)), resultado@)
                            == split_goal,
                        ps.len() == j,
                        positions_ok(celdas@, ps, resultado@ + linea@),
                        extends(s0, resultado@ + linea@),
                        n > 30,
                    decreases n - j,
                {
                    let ghost vj = values(celdas@.subrange(j as int, n as int));
                    let ghost st2 = resultado@ + linea@;
                    agregar(linea, celdas, j, j + CELDAS_POR_LINEA);
                    assert(linea@ =~= vj.subrange(0, 30));
                    proof {
                        lemma_add_positions(celdas@, ps, st2, j as int, j + 30);
                        assert(resultado@ + linea@ =~= st2 + values(celdas@.subrange(j as int, j + 30)));
                        lemma_extends_trans(s0, st2, resultado@ + linea@);
                        ps = run_positions(ps, st2.len() as int, j as int, j + 30);
                    }
                    let ghost res1 = resultado@;
                    let ghost lin1 = linea@;
                    volcar(linea, resultado);
                    proof {
                        lemma_flush_extends(res1, lin1);
                        assert(resultado@ + linea@ =~= res1 + flushed(lin1));
                        lemma_extends_trans(s0, res1 + lin1, resultado@ + linea@);
                        lemma_keep_positions(celdas@, ps, res1 + lin1, resultado@ + linea@);
                    }
                    j = j + CELDAS_POR_LINEA;
                    assert(vj.subrange(30, vj.len() as int) =~= values(
                        celdas@.subrange(j as int, n as int),
                    ));
                }
                let ghost st2 = resultado@ + linea@;
                agregar(linea, celdas, j, n);
                proof {
                    lemma_add_positions(celdas@, ps, st2, j as int, n as int);
                    assert(resultado@ + linea@ =~= st2 + values(celdas@.subrange(j as int, n as int)));
                    lemma_extends_trans(s0, st2, resultado@ + linea@);
                    ps = run_positions(ps, st2.len() as int, j as int, n as int);
                }
                assert(linea@ =~= values(celdas@.subrange(j as int, n as int)));
                assert(force_split(values(celdas@.subrange(j as int, n as int)), resultado@) == (
                    resultado@,
                    linea@,
                ));
            } else {
                let ghost st2 = resultado@ + linea@;
                agregar(linea, celdas, ini, n);
                proof {
                    lemma_add_positions(celdas@, ps, st2, ini as int, n as int);
                    if n <= 30 {
                        lemma_adjacent_after_add(celdas@, ps, st2.len() as int, ini as int, n as int);
                    }
                    assert(resultado@ + linea@ =~= st2 + values(celdas@.subrange(ini as int, n as int)));
                    lemma_extends_trans(s0, st2, resultado@ + linea@);
                    ps = run_positions(ps, st2.len() as int, ini as int, n as int);
                }
            }
            assert(resultado@ == goal.0 && linea@ == goal.1);
            break;
        }
    }
    Ghost(ps)
}

/// The positions of a word's cells, placed after those of the cells before
/// it, keep every prefix that must stay beside the next cell there.
proof fn lemma_word_positions(
    cells: Seq<CeldaInfo>,
    ps: Seq<int>,
    wp: Seq<int>,
    st: Seq<u8>,
    i: int,
    fin: int,
)
    requires
        0 <= i < fin <= cells.len(),
        ps.len() == i,
        positions_ok(cells, ps, st),
        placed(cells.subrange(i, fin), st, wp),
        fin - i <= 30 ==> forall|j: int|
            0 <= j < fin - i - 1 && (#[trigger] cells.subrange(i, fin)[j]).es_prefijo ==> wp[j + 1]
                == wp[j] + 1,
        word_span(cells, i, fin),
        forall|j: int| j + 1 < ps.len() && #[trigger] kept_together(cells, j) ==> ps[j + 1] == ps[j] + 1,
        i > 0 ==> !kept_together(cells, i - 1),
        fin < cells.len() ==> cells[fin].silaba_idx is None,
    ensures
        positions_ok(cells, ps + wp, st),
        forall|j: int|
            j + 1 < (ps + wp).len() && #[trigger] kept_together(cells, j) ==> (ps + wp)[j + 1] == (ps
                + wp)[j] + 1,
        !kept_together(cells, fin - 1),
{
    let nps = ps + wp;
    let palabra = cells.subrange(i, fin);
    assert forall|j: int| 0 <= j < nps.len() implies 0 <= #[trigger] nps[j] < st.len() && st[nps[j]]
        == cells[j].byte by {
        if j >= i {
            assert(nps[j] == wp[j - i]);
            assert(palabra[j - i] == cells[j]);
        }
    }
    assert forall|j: int| j + 1 < nps.len() && #[trigger] kept_together(cells, j) implies nps[j + 1]
        == nps[j] + 1 by {
        if j >= i {
            if fin - i > 30 {
                assert(in_long_word(cells, j));
            }
            assert(palabra[j - i] == cells[j]);
            assert(palabra[j - i].es_prefijo);
            assert(nps[j] == wp[j - i] && nps[j + 1] == wp[j + 1 - i]);
        } else if j < i - 1 {
            assert(nps[j] == ps[j] && nps[j + 1] == ps[j + 1]);
        }
    }
    assert(cells[fin - 1].silaba_idx is Some);
}

/// Flushes the open line unless `need` more cells fit on it.
fn hacer_sitio(linea: &mut Vec<u8>, resultado: &mut Vec<u8>, need: usize)
    requires
        line_ok(old(linea)@),
        lines_ok(old(resultado)@),
        need <= 30,
    ensures
        (final(resultado)@, final(linea)@) == make_room(old(resultado)@, old(linea)@, need as int),
        line_ok(final(linea)@),
        lines_ok(final(resultado)@),
        final(linea)@.len() + need <= 30,
        extends(old(resultado)@ + old(linea)@, final(resultado)@ + final(linea)@),
{
    if linea.len() + need > CELDAS_POR_LINEA {
        let ghost r0 = resultado@;
        let ghost l0 = linea@;
        volcar(linea, resultado);
        proof {
            lemma_flush_extends(r0, l0);
            assert(resultado@ + linea@ =~= r0 + flushed(l0));
        }
    } else {
        assert((resultado@ + linea@).subrange(0, (resultado@ + linea@).len() as int) =~= resultado@
            + linea@);
    }
}

/// Packs cells into lines of 30 cell values, each closed by 0xFF. A blank goes
/// where it falls; a prefix keeps the cell after it on its line; a word is
/// placed by `colocar_palabra`; the last line is padded with blanks. Each cell
/// lands at some place of the output, and each prefix that must stay beside
/// the cell after it does.
pub fn formatear_lineas(celdas: &[CeldaInfo]) -> (r: Vec<u8>)
    requires
        cells_small(celdas@),
    ensures
        r@ == formatted(celdas@),
        lines_ok(r@),
        exists|pos: Seq<int>| #[trigger] placed(celdas@, r@, pos) && prefixes_attached(celdas@, pos),
{
    let mut resultado: Vec<u8> = Vec::new();
    let mut linea: Vec<u8> = Vec::new();
    let n = celdas.len();
    let mut i: usize = 0;
    let ghost mut ps: Seq<int> = seq![];
    assert(resultado@ =~= Seq::<u8>::empty());
    assert(linea@ =~= Seq::<u8>::empty());
    while i < n
        invariant
            i <= n == celdas@.len(),
            cells_small(celdas@),
            line_ok(linea@),
            lines_ok(resultado@),
            format_from(celdas@, i as int, resultado@, linea@) == formatted(celdas@),
            ps.len() == i,
            positions_ok(celdas@, ps, resultado@ + linea@),
            forall|j: int|
                j + 1 < ps.len() && #[trigger] kept_together(celdas@, j) ==> ps[j + 1] == ps[j] + 1,
            i > 0 ==> !kept_together(celdas@, i - 1),
        decreases n - i,
    {
        let celda = celdas[i];
        let ghost out0 = resultado@;
        let ghost line0 = linea@;
        let ghost st = resultado@ + linea@;
        if celda.byte == 0 && !celda.es_prefijo {
            hacer_sitio(&mut linea, &mut resultado, 1);
            let ghost st1 = resultado@ + linea@;
            linea.push(0);
            proof {
                lemma_keep_positions(celdas@, ps, st, st1);
                assert(resultado@ + linea@ =~= st1 + values(celdas@.subrange(i as int, i + 1)));
                lemma_add_positions(celdas@, ps, st1, i as int, i + 1);
                ps = run_positions(ps, st1.len() as int, i as int, i + 1);
            }
            i = i + 1;
        } else if celda.inicio_palabra && celda.silaba_idx.is_some() {
            let mut fin = i;
            while fin < n && celdas[fin].silaba_idx.is_some()
                invariant
                    i <= fin <= n == celdas@.len(),
                    word_run_end(celdas@, fin as int) == word_run_end(celdas@, i as int),
                    word_span(celdas@, i as int, fin as int),
                decreases n - fin,
            {
                fin = fin + 1;
            }
            let palabra = vstd::slice::slice_subrange(celdas, i, fin);
            assert(cells_small(palabra@));
            let wp = colocar_con_posiciones(palabra, &mut linea, &mut resultado);
            proof {
                let st2 = resultado@ + linea@;
                lemma_keep_positions(celdas@, ps, st, st2);
                assert(fin < n ==> !celdas@[fin as int].silaba_idx.is_some());
                lemma_word_positions(celdas@, ps, wp@, st2, i as int, fin as int);
                ps = ps + wp@;
            }
            i = fin;
        } else if celda.es_prefijo && i + 1 < n {
            hacer_sitio(&mut linea, &mut resultado, 2);
            let ghost st1 = resultado@ + linea@;
            linea.push(celda.byte);
            linea.push(celdas[i + 1].byte);
            proof {
                lemma_keep_positions(celdas@, ps, st, st1);
                assert(resultado@ + linea@ =~= st1 + values(celdas@.subrange(i as int, i + 2)));
                lemma_add_positions(celdas@, ps, st1, i as int, i + 2);
                let nps = run_positions(ps, st1.len() as int, i as int, i + 2);
                assert(nps[i as int] == st1.len() && nps[i + 1] == st1.len() + 1);
                assert forall|j: int|
                    j + 1 < nps.len() && #[trigger] kept_together(celdas@, j) implies nps[j + 1]
                        == nps[j] + 1 by {
                    if j < i - 1 {
                        assert(nps[j] == ps[j] && nps[j + 1] == ps[j + 1]);
                    }
                }
                ps = nps;
            }
            i = i + 2;
        } else {
            hacer_sitio(&mut linea, &mut resultado, 1);
            let ghost st1 = resultado@ + linea@;
            linea.push(celda.byte);
            proof {
                lemma_keep_positions(celdas@, ps, st, st1);
                assert(resultado@ + linea@ =~= st1 + values(celdas@.subrange(i as int, i + 1)));
                lemma_add_positions(celdas@, ps, st1, i as int, i + 1);
                let nps = run_positions(ps, st1.len() as int, i as int, i + 1);
                assert forall|j: int|
                    j + 1 < nps.len() && #[trigger] kept_together(celdas@, j) implies nps[j + 1]
                        == nps[j] + 1 by {
                    if j < i - 1 {
                        assert(nps[j] == ps[j] && nps[j + 1] == ps[j + 1]);
                    }
                }
                ps = nps;
            }
            i = i + 1;
        }
    }
    let ghost st = resultado@ + linea@;
    if linea.len() > 0 {
        let ghost r0 = resultado@;
        let ghost l0 = linea@;
        volcar(&mut linea, &mut resultado);
        proof {
            lemma_flush_extends(r0, l0);
        }
    } else {
        assert(st =~= resultado@);
        assert(st.subrange(0, st.len() as int) =~= st);
    }
    proof {
        assert(resultado@ + linea@ =~= resultado@);
        lemma_keep_positions(celdas@, ps, st, resultado@);
        assert(placed(celdas@, resultado@, ps));
        assert(prefixes_attached(celdas@, ps));
    }
    resultado
}

} // verus!
