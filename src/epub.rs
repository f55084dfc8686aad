//! The text-level parts of reading an EPUB package: attribute values in the
//! container and package documents, and the paragraph text of a content file.
use vstd::prelude::*;
use crate::silabas::caracteres;

verus! {

/// Whether `pat` occurs in `s` at position `i`.
pub open spec fn occurs_at(s: Seq<char>, pat: Seq<char>, i: int) -> bool {
    0 <= i && i + pat.len() <= s.len() && s.subrange(i, i + pat.len()) == pat
}

/// `i` is the first position where `pat` occurs in `s`.
pub open spec fn first_occurrence(s: Seq<char>, pat: Seq<char>, i: int) -> bool {
    occurs_at(s, pat, i) && forall|j: int| 0 <= j < i ==> !occurs_at(s, pat, j)
}

/// What a quoted attribute `attr="value"` holds: the text after the first
/// `attr="` up to the next `"`.
pub open spec fn attribute_value(line: Seq<char>, attr: Seq<char>) -> Option<Seq<char>> {
    let pat = attr + seq!['=', '"'];
    if exists|i: int| first_occurrence(line, pat, i) {
        let i = choose|i: int| first_occurrence(line, pat, i);
        let start = i + pat.len();
        let rest = line.subrange(start, line.len() as int);
        if exists|e: int| 0 <= e < rest.len() && rest[e] == '"' && forall|f: int|
            0 <= f < e ==> rest[f] != '"' {
            let e = choose|e: int|
                0 <= e < rest.len() && rest[e] == '"' && forall|f: int| 0 <= f < e ==> rest[f] != '"';
            Some(rest.subrange(0, e))
        } else {
            None
        }
    } else {
        None
    }
}

fn aparece_en(s: &Vec<char>, pat: &Vec<char>, i: usize) -> (r: bool)
    requires
        i <= s@.len(),
    ensures
        r == occurs_at(s@, pat@, i as int),
{
    if pat.len() > s.len() - i {
        return false;
    }
    let mut k: usize = 0;
    while k < pat.len()
        invariant
            i + pat@.len() <= s@.len(),
            s@.len() == s.len(),
            k <= pat@.len(),
            forall|j: int| 0 <= j < k ==> s@[i + j] == pat@[j],
        decreases pat@.len() - k,
    {
        if s[i + k] != pat[k] {
            assert(s@.subrange(i as int, i + pat@.len())[k as int] != pat@[k as int]);
            return false;
        }
        k = k + 1;
    }
    assert(s@.subrange(i as int, i + pat@.len()) =~= pat@);
    true
}

/// Relies on `String::from_iter` over chars: a string of exactly these characters.
#[verifier::external_body]
fn cadena_de(c: &[char]) -> (r: String)
    ensures
        r@ == c@,
{
    c.iter().collect()
}

/// The value of the quoted attribute `attr` in a line of markup: the text
/// between the first `attr="` and the next `"`, or `None` if either is missing.
pub fn extraer_atributo(line: &str, attr: &str) -> (r: Option<String>)
    ensures
        match r {
            Some(v) => attribute_value(line@, attr@) == Some(v@),
            None => attribute_value(line@, attr@) is None,
        },
{
    let s = caracteres(line);
    let mut pat = caracteres(attr);
    pat.push('=');
    pat.push('"');
    let ghost p = pat@;
    assert(p =~= attr@ + seq!['=', '"']);
    let ghost sv = s@;
    let n = s.len();
    let mut i: usize = 0;
    while i < n && !aparece_en(&s, &pat, i)
        invariant
            i <= n == sv.len(),
            sv == s@,
            p == pat@,
            forall|j: int| 0 <= j < i ==> !occurs_at(sv, p, j),
        decreases n - i,
    {
        i = i + 1;
    }
    if i >= n && !aparece_en(&s, &pat, i) {
        assert forall|j: int| !first_occurrence(sv, p, j) by {
            if first_occurrence(sv, p, j) && j > i {
                assert(p.len() >= 2);
            }
        }
        return None;
    }
    assert(first_occurrence(sv, p, i as int));
    assert forall|j: int| first_occurrence(sv, p, j) implies j == i by {
        lemma_first_occurrence_unique(sv, p, i as int, j);
    }
    let start = i + pat.len();
    let ghost rest = sv.subrange(start as int, sv.len() as int);
    let mut e = start;
    while e < n && s[e] != '"'
        invariant
            start <= e <= n == sv.len(),
            sv == s@,
            rest == sv.subrange(start as int, sv.len() as int),
            forall|f: int| 0 <= f < e - start ==> rest[f] != '"',
        decreases n - e,
    {
        e = e + 1;
    }
    if e >= n {
        assert forall|x: int|
            !(0 <= x < rest.len() && rest[x] == '"' && forall|f: int| 0 <= f < x ==> rest[f] != '"') by {
        }
        return None;
    }
    let ghost idx = (e - start) as int;
    assert(0 <= idx < rest.len() && rest[idx] == '"' && forall|f: int| 0 <= f < idx ==> rest[f] != '"');
    assert forall|x: int|
        0 <= x < rest.len() && rest[x] == '"' && (forall|f: int| 0 <= f < x ==> rest[f] != '"') implies x
        == idx by {
        if x < idx {
            assert(rest[x] != '"');
        } else if x > idx {
            assert(rest[idx] != '"');
        }
    }
    let v = cadena_de(vstd::slice::slice_subrange(s.as_slice(), start, e));
    assert(v@ =~= rest.subrange(0, idx));
    proof {
        let ci = choose|j: int| first_occurrence(sv, p, j);
        assert(ci == i);
        assert(ci + p.len() == start);
        let ce = choose|x: int|
            0 <= x < rest.len() && rest[x] == '"' && forall|f: int| 0 <= f < x ==> rest[f] != '"';
        assert(ce == idx);
        assert(attribute_value(line@, attr@) == Some(rest.subrange(0, idx)));
    }
    Some(v)
}

/// The text of each paragraph (`p` element) of an HTML document, in order.
pub uninterp spec fn paragraphs_of(html: Seq<char>) -> Seq<Seq<char>>;

/// Relies on scraper: `Html::parse_document`, then `Html::select` with the
/// selector `p` and `ElementRef::text` collected per element; the result depends
/// on the document alone.
#[verifier::external_body]
fn parrafos(content: &str) -> (r: Vec<String>)
    ensures
        r@.map_values(|p: String| p@) == paragraphs_of(content@),
{
    let doc = scraper::Html::parse_document(content);
    let selector = scraper::Selector::parse("p").unwrap();
    doc.select(&selector).map(|el| el.text().collect::<String>()).collect()
}

/// Paragraphs joined by newlines.
pub open spec fn joined(ps: Seq<Seq<char>>) -> Seq<char>
    decreases ps.len(),
{
    if ps.len() == 0 {
        seq![]
    } else if ps.len() == 1 {
        ps[0]
    } else {
        joined(ps.drop_last()) + seq!['\n'] + ps.last()
    }
}

/// The text of one content document: its paragraphs, one per line, and a
/// blank line after them.
pub open spec fn document_text(html: Seq<char>) -> Seq<char> {
    joined(paragraphs_of(html)) + seq!['\n', '\n']
}

/// The text of several content documents, in reading order.
pub open spec fn documents_text(docs: Seq<Seq<char>>) -> Seq<char>
    decreases docs.len(),
{
    if docs.len() == 0 {
        seq![]
    } else {
        documents_text(docs.drop_last()) + document_text(docs.last())
    }
}

/// The paragraph text of one XHTML content document, followed by a blank line.
pub fn extraer_texto_xhtml(content: &str) -> (r: String)
    ensures
        r@ == document_text(content@),
{
    let ps = parrafos(content);
    let ghost pv = ps@.map_values(|p: String| p@);
    let mut r = String::new();
    let mut k: usize = 0;
    proof {
        reveal_strlit("\n");
    }
    while k < ps.len()
        invariant
            k <= ps@.len(),
            pv == ps@.map_values(|p: String| p@),
            r@ == joined(pv.subrange(0, k as int)),
        decreases ps@.len() - k,
    {
        proof {
            reveal_strlit("\n");
        }
        if k > 0 {
            r.append("\n");
        }
        r.append(ps[k].as_str());
        k = k + 1;
        assert(pv.subrange(0, k as int).drop_last() =~= pv.subrange(0, k - 1));
        assert(k == 1 ==> pv.subrange(0, k as int) =~= seq![pv[0]]);
    }
    assert(pv.subrange(0, k as int) =~= pv);
    proof {
        reveal_strlit("\n\n");
    }
    r.append("\n\n");
    r
}

/// The text of a package's content documents, given in reading order: each
/// one's paragraphs, one per line, then a blank line.
pub fn texto_de_documentos(contenidos: &Vec<String>) -> (r: String)
    ensures
        r@ == documents_text(contenidos@.map_values(|c: String| c@)),
{
    let ghost cv = contenidos@.map_values(|c: String| c@);
    let mut r = String::new();
    let mut k: usize = 0;
    while k < contenidos.len()
        invariant
            k <= contenidos@.len(),
            cv == contenidos@.map_values(|c: String| c@),
            r@ == documents_text(cv.subrange(0, k as int)),
        decreases contenidos@.len() - k,
    {
        let t = extraer_texto_xhtml(contenidos[k].as_str());
        r.append(t.as_str());
        k = k + 1;
        assert(cv.subrange(0, k as int).drop_last() =~= cv.subrange(0, k - 1));
    }
    assert(cv.subrange(0, k as int) =~= cv);
    r
}

/// A line without the `\r` of a `\r\n` ending.
pub open spec fn strip_cr(l: Seq<char>) -> Seq<char> {
    if l.len() > 0 && l.last() == '\r' {
        l.drop_last()
    } else {
        l
    }
}

/// `e` is the first newline of `s`.
pub open spec fn first_newline(s: Seq<char>, e: int) -> bool {
    0 <= e < s.len() && s[e] == '\n' && forall|f: int| 0 <= f < e ==> s[f] != '\n'
}

/// The lines of a text: split at each `\n`, a `\r` right before it dropped,
/// and no empty line after a final `\n`.
pub open spec fn split_lines(s: Seq<char>) -> Seq<Seq<char>>
    decreases s.len(),
{
    if s.len() == 0 {
        seq![]
    } else if exists|e: int| first_newline(s, e) {
        let e = choose|e: int| first_newline(s, e);
        seq![strip_cr(s.subrange(0, e))] + split_lines(s.subrange(e + 1, s.len() as int))
    } else {
        seq![s]
    }
}

pub open spec fn views(v: Seq<String>) -> Seq<Seq<char>> {
    v.map_values(|l: String| l@)
}

proof fn lemma_first_newline_unique(s: Seq<char>, e: int, f: int)
    requires
        first_newline(s, e),
        first_newline(s, f),
    ensures
        e == f,
{
}

/// The lines of a text: split at each `\n`, a `\r` right before it dropped,
/// with no empty line after a final `\n`.
pub fn lineas(s: &str) -> (r: Vec<String>)
    ensures
        views(r@) == split_lines(s@),
{
    let t = caracteres(s);
    let ghost sv = t@;
    let n = t.len();
    let mut r: Vec<String> = Vec::new();
    let mut inicio: usize = 0;
    let mut k: usize = 0;
    assert(sv.subrange(0, n as int) =~= sv);
    while k < n
        invariant
            sv == t@,
            sv == s@,
            n == sv.len(),
            inicio <= k <= n,
            forall|f: int| inicio <= f < k ==> sv[f] != '\n',
            views(r@) + split_lines(sv.subrange(inicio as int, n as int)) == split_lines(sv),
        decreases n - k,
    {
        if t[k] == '\n' {
            let ghost sub = sv.subrange(inicio as int, n as int);
            let ghost e = k - inicio;
            assert(first_newline(sub, e));
            let mut fin = k;
            if fin > inicio && t[fin - 1] == '\r' {
                fin = fin - 1;
            }
            let linea = cadena_de(vstd::slice::slice_subrange(t.as_slice(), inicio, fin));
            proof {
                let c = choose|c: int| first_newline(sub, c);
                lemma_first_newline_unique(sub, c, e);
                assert(sub.subrange(0, e) =~= sv.subrange(inicio as int, k as int));
                assert(linea@ =~= strip_cr(sub.subrange(0, e)));
                assert(sub.subrange(e + 1, sub.len() as int) =~= sv.subrange(k + 1, n as int));
            }
            let ghost before = views(r@);
            r.push(linea);
            assert(views(r@) =~= before.push(linea@));
            inicio = k + 1;
        }
        k = k + 1;
    }
    let ghost rest = sv.subrange(inicio as int, n as int);
    if inicio < n {
        let linea = cadena_de(vstd::slice::slice_subrange(t.as_slice(), inicio, n));
        proof {
            assert(!exists|e: int| first_newline(rest, e)) by {
                if exists|e: int| first_newline(rest, e) {
                    let e = choose|e: int| first_newline(rest, e);
                    assert(sv[inicio + e] == '\n');
                }
            }
            assert(linea@ =~= rest);
        }
        let ghost before = views(r@);
        r.push(linea);
        assert(views(r@) =~= before.push(linea@));
        assert(views(r@) =~= split_lines(sv));
    } else {
        assert(views(r@) =~= views(r@) + split_lines(rest));
    }
    r
}

/// Whether `pat` occurs somewhere in `s`.
pub open spec fn mentions(s: Seq<char>, pat: Seq<char>) -> bool {
    exists|i: int| occurs_at(s, pat, i)
}

/// The first position of `pat` in `s`, or `d` if it does not occur.
pub open spec fn find_or(s: Seq<char>, pat: Seq<char>, d: int) -> int {
    if exists|i: int| first_occurrence(s, pat, i) {
        choose|i: int| first_occurrence(s, pat, i)
    } else {
        d
    }
}

fn buscar(s: &Vec<char>, pat: &Vec<char>) -> (r: Option<usize>)
    ensures
        match r {
            Some(i) => first_occurrence(s@, pat@, i as int),
            None => forall|i: int| !occurs_at(s@, pat@, i),
        },
{
    let n = s.len();
    let mut i: usize = 0;
    while i <= n
        invariant
            i <= n + 1,
            n == s@.len(),
            forall|j: int| 0 <= j < i ==> !occurs_at(s@, pat@, j),
        decreases n + 1 - i,
    {
        if aparece_en(s, pat, i) {
            return Some(i);
        }
        if i == n {
            assert forall|j: int| !occurs_at(s@, pat@, j) by {
                if j > n {
                    assert(!(j + pat@.len() <= s@.len()));
                }
            }
            return None;
        }
        i = i + 1;
    }
    None
}

/// Whether `pat` occurs in `s`.
fn contiene(s: &str, pat: &str) -> (r: bool)
    ensures
        r == mentions(s@, pat@),
{
    let a = caracteres(s);
    let b = caracteres(pat);
    match buscar(&a, &b) {
        Some(i) => true,
        None => false,
    }
}

/// The path of the package document named by a container document: the
/// `full-path` attribute of the first line that mentions `full-path`.
pub open spec fn opf_path_of(container: Seq<char>) -> Option<Seq<char>> {
    let ls = split_lines(container);
    if exists|k: int| 0 <= k < ls.len() && mentions(ls[k], "full-path"@) && forall|m: int|
        0 <= m < k ==> !mentions(ls[m], "full-path"@) {
        let k = choose|k: int|
            0 <= k < ls.len() && mentions(ls[k], "full-path"@) && forall|m: int|
                0 <= m < k ==> !mentions(ls[m], "full-path"@);
        attribute_value(ls[k], "full-path"@)
    } else {
        None
    }
}

/// The package document's path in the container document
/// (`META-INF/container.xml`), or `None` where it names none.
pub fn ruta_opf(container_xml: &str) -> (r: Option<String>)
    ensures
        match r {
            Some(v) => opf_path_of(container_xml@) == Some(v@),
            None => opf_path_of(container_xml@) is None,
        },
{
    let ls = lineas(container_xml);
    let ghost lv = views(ls@);
    let mut k: usize = 0;
    while k < ls.len()
        invariant
            k <= ls@.len(),
            lv == views(ls@),
            lv == split_lines(container_xml@),
            forall|m: int| 0 <= m < k ==> !mentions(lv[m], "full-path"@),
        decreases ls@.len() - k,
    {
        assert(lv[k as int] == ls@[k as int]@);
        if contiene(ls[k].as_str(), "full-path") {
            proof {
                let c = choose|c: int|
                    0 <= c < lv.len() && mentions(lv[c], "full-path"@) && forall|m: int|
                        0 <= m < c ==> !mentions(lv[m], "full-path"@);
                assert(c == k) by {
                    if c < k {
                    } else if c > k {
                    }
                }
            }
            return extraer_atributo(ls[k].as_str(), "full-path");
        }
        k = k + 1;
    }
    None
}

proof fn lemma_first_occurrence_unique(s: Seq<char>, pat: Seq<char>, i: int, j: int)
    requires
        first_occurrence(s, pat, i),
        first_occurrence(s, pat, j),
    ensures
        i == j,
{
}

/// The value of an attribute, or the empty text where it is missing.
pub open spec fn attr_or_empty(l: Seq<char>, a: Seq<char>) -> Seq<char> {
    match attribute_value(l, a) {
        Some(v) => v,
        None => seq![],
    }
}

/// A manifest line that declares an XHTML content document.
pub open spec fn is_content_item(l: Seq<char>) -> bool {
    mentions(l, "<item "@) && mentions(l, "media-type=\"application/xhtml"@)
}

/// The (id, href) pairs that the manifest lines declare, in order; a later
/// pair for the same id overrides an earlier one.
pub open spec fn manifest_of(ls: Seq<Seq<char>>) -> Seq<(Seq<char>, Seq<char>)>
    decreases ls.len(),
{
    if ls.len() == 0 {
        seq![]
    } else {
        let l = ls.last();
        let id = attr_or_empty(l, "id"@);
        let href = attr_or_empty(l, "href"@);
        manifest_of(ls.drop_last()) + if is_content_item(l) && id.len() > 0 && href.len() > 0 {
            seq![(id, href)]
        } else {
            seq![]
        }
    }
}

/// The href of an id in the manifest: its last pair.
pub open spec fn lookup(m: Seq<(Seq<char>, Seq<char>)>, id: Seq<char>) -> Option<Seq<char>>
    decreases m.len(),
{
    if m.len() == 0 {
        None
    } else if m.last().0 == id {
        Some(m.last().1)
    } else {
        lookup(m.drop_last(), id)
    }
}

/// The last position before `k` that holds `c`, or -1.
pub open spec fn last_index_of(p: Seq<char>, c: char, k: int) -> int
    decreases k,
{
    if k <= 0 {
        -1
    } else if p[k - 1] == c {
        k - 1
    } else {
        last_index_of(p, c, k - 1)
    }
}

/// The first position from `k` on that holds `c`, or the length.
pub open spec fn first_index_of(p: Seq<char>, c: char, k: int) -> int
    decreases p.len() - k,
{
    if k >= p.len() {
        p.len() as int
    } else if p[k] == c {
        k
    } else {
        first_index_of(p, c, k + 1)
    }
}

/// The directory of a path: what comes before its last `/`, or nothing.
pub open spec fn base_dir(p: Seq<char>) -> Seq<char> {
    let i = last_index_of(p, '/', p.len() as int);
    if i >= 0 {
        p.subrange(0, i)
    } else {
        seq![]
    }
}

/// A path without its `#` fragment.
pub open spec fn without_fragment(p: Seq<char>) -> Seq<char> {
    p.subrange(0, first_index_of(p, '#', 0))
}

/// An href resolved against the package document's directory, fragment removed.
pub open spec fn resolve(base: Seq<char>, href: Seq<char>) -> Seq<char> {
    without_fragment(
        if (href.len() > 0 && href[0] == '/') || base.len() == 0 {
            href
        } else {
            base + seq!['/'] + href
        },
    )
}

/// The text between `<spine` and `</spine>` (from the start, or to the end,
/// where either is missing).
pub open spec fn spine_section(x: Seq<char>) -> Seq<char> {
    let a = find_or(x, "<spine"@, 0);
    let b = find_or(x, "</spine>"@, x.len() as int);
    if a <= b {
        x.subrange(a, b)
    } else {
        seq![]
    }
}

/// The path that one spine line leads to, if any.
pub open spec fn spine_entry(
    l: Seq<char>,
    m: Seq<(Seq<char>, Seq<char>)>,
    base: Seq<char>,
) -> Seq<Seq<char>> {
    if mentions(l, "<itemref "@) {
        match attribute_value(l, "idref"@) {
            Some(idref) => match lookup(m, idref) {
                Some(h) => seq![resolve(base, h)],
                None => seq![],
            },
            None => seq![],
        }
    } else {
        seq![]
    }
}

pub open spec fn spine_paths_from(
    ls: Seq<Seq<char>>,
    m: Seq<(Seq<char>, Seq<char>)>,
    base: Seq<char>,
) -> Seq<Seq<char>>
    decreases ls.len(),
{
    if ls.len() == 0 {
        seq![]
    } else {
        spine_paths_from(ls.drop_last(), m, base) + spine_entry(ls.last(), m, base)
    }
}

/// The content documents of a package document, in reading order.
pub open spec fn spine_paths(opf: Seq<char>, opf_path: Seq<char>) -> Seq<Seq<char>> {
    spine_paths_from(
        split_lines(spine_section(opf)),
        manifest_of(split_lines(opf)),
        base_dir(opf_path),
    )
}

pub open spec fn pairs(v: Seq<(String, String)>) -> Seq<(Seq<char>, Seq<char>)> {
    v.map_values(|p: (String, String)| (p.0@, p.1@))
}

fn valor_o_vacio(l: &str, a: &str) -> (r: String)
    ensures
        r@ == attr_or_empty(l@, a@),
{
    match extraer_atributo(l, a) {
        Some(v) => v,
        None => String::new(),
    }
}

fn buscar_href(m: &Vec<(String, String)>, id: &String) -> (r: Option<String>)
    ensures
        match r {
            Some(h) => lookup(pairs(m@), id@) == Some(h@),
            None => lookup(pairs(m@), id@) is None,
        },
{
    let mut k = m.len();
    assert(pairs(m@).subrange(0, k as int) =~= pairs(m@));
    while k > 0
        invariant
            k <= m@.len(),
            lookup(pairs(m@), id@) == lookup(pairs(m@).subrange(0, k as int), id@),
        decreases k,
    {
        let ghost pk = pairs(m@).subrange(0, k as int);
        assert(pk.last() == (m@[k - 1].0@, m@[k - 1].1@));
        if m[k - 1].0 == *id {
            let h = m[k - 1].1.clone();
            return Some(h);
        }
        assert(pk.drop_last() =~= pairs(m@).subrange(0, k - 1));
        k = k - 1;
    }
    None
}

fn dir_base(p: &Vec<char>) -> (r: Vec<char>)
    ensures
        r@ == base_dir(p@),
{
    let mut k = p.len();
    while k > 0 && p[k - 1] != '/'
        invariant
            k <= p@.len(),
            last_index_of(p@, '/', k as int) == last_index_of(p@, '/', p@.len() as int),
        decreases k,
    {
        k = k - 1;
    }
    let mut r: Vec<char> = Vec::new();
    if k > 0 {
        let mut j: usize = 0;
        while j < k - 1
            invariant
                0 < k <= p@.len(),
                j <= k - 1,
                r@ == p@.subrange(0, j as int),
            decreases k - 1 - j,
        {
            r.push(p[j]);
            j = j + 1;
            assert(r@ =~= p@.subrange(0, j as int));
        }
    }
    r
}

fn resolver(base: &Vec<char>, h: &String) -> (r: String)
    ensures
        r@ == resolve(base@, h@),
{
    let hc = caracteres(h.as_str());
    let mut full: Vec<char> = Vec::new();
    if !((hc.len() > 0 && hc[0] == '/') || base.len() == 0) {
        let mut j: usize = 0;
        while j < base.len()
            invariant
                j <= base@.len(),
                full@ == base@.subrange(0, j as int),
            decreases base@.len() - j,
        {
            full.push(base[j]);
            j = j + 1;
            assert(full@ =~= base@.subrange(0, j as int));
        }
        full.push('/');
    }
    let ghost pre = full@;
    let mut j: usize = 0;
    while j < hc.len()
        invariant
            j <= hc@.len(),
            full@ == pre + hc@.subrange(0, j as int),
        decreases hc@.len() - j,
    {
        full.push(hc[j]);
        j = j + 1;
        assert(full@ =~= pre + hc@.subrange(0, j as int));
    }
    assert(base@.subrange(0, base@.len() as int) =~= base@);
    assert(full@ =~= if (h@.len() > 0 && h@[0] == '/') || base@.len() == 0 {
        h@
    } else {
        base@ + seq!['/'] + h@
    });
    let mut e: usize = 0;
    while e < full.len() && full[e] != '#'
        invariant
            e <= full@.len(),
            first_index_of(full@, '#', e as int) == first_index_of(full@, '#', 0),
        decreases full@.len() - e,
    {
        e = e + 1;
    }
    cadena_de(vstd::slice::slice_subrange(full.as_slice(), 0, e))
}

/// The paths of a package's content documents in reading order: each spine
/// `itemref` whose `idref` names an XHTML item of the manifest gives that
/// item's href, resolved against the package document's directory and
/// without its fragment.
pub fn rutas_spine(opf_xml: &str, opf_path: &str) -> (r: Vec<String>)
    ensures
        views(r@) == spine_paths(opf_xml@, opf_path@),
{
    let ls = lineas(opf_xml);
    let ghost lv = views(ls@);
    let mut m: Vec<(String, String)> = Vec::new();
    let mut k: usize = 0;
    while k < ls.len()
        invariant
            k <= ls@.len(),
            lv == views(ls@),
            pairs(m@) == manifest_of(lv.subrange(0, k as int)),
        decreases ls@.len() - k,
    {
        let l = ls[k].as_str();
        let ghost before = pairs(m@);
        assert(lv.subrange(0, k + 1).drop_last() =~= lv.subrange(0, k as int));
        assert(lv.subrange(0, k + 1).last() == l@);
        if contiene(l, "<item ") && contiene(l, "media-type=\"application/xhtml") {
            let id = valor_o_vacio(l, "id");
            let href = valor_o_vacio(l, "href");
            if !id.as_str().is_empty() && !href.as_str().is_empty() {
                m.push((id, href));
            }
        }
        assert(pairs(m@) =~= manifest_of(lv.subrange(0, k + 1)));
        k = k + 1;
    }
    assert(lv.subrange(0, k as int) =~= lv);
    let ghost mv = pairs(m@);
    let x = caracteres(opf_xml);
    let ini = match buscar(&x, &caracteres("<spine")) {
        Some(i) => i,
        None => 0,
    };
    let fin = match buscar(&x, &caracteres("</spine>")) {
        Some(i) => i,
        None => x.len(),
    };
    proof {
        if exists|i: int| first_occurrence(x@, "<spine"@, i) {
            let c = choose|i: int| first_occurrence(x@, "<spine"@, i);
            lemma_first_occurrence_unique(x@, "<spine"@, c, ini as int);
        }
        if exists|i: int| first_occurrence(x@, "</spine>"@, i) {
            let c = choose|i: int| first_occurrence(x@, "</spine>"@, i);
            lemma_first_occurrence_unique(x@, "</spine>"@, c, fin as int);
        }
    }
    assert(ini as int == find_or(opf_xml@, "<spine"@, 0));
    assert(fin as int == find_or(opf_xml@, "</spine>"@, opf_xml@.len() as int));
    let seccion = if ini <= fin {
        cadena_de(vstd::slice::slice_subrange(x.as_slice(), ini, fin))
    } else {
        String::new()
    };
    assert(seccion@ =~= spine_section(opf_xml@));
    let sl = lineas(seccion.as_str());
    let ghost sv = views(sl@);
    let base = dir_base(&caracteres(opf_path));
    let mut r: Vec<String> = Vec::new();
    let mut j: usize = 0;
    while j < sl.len()
        invariant
            j <= sl@.len(),
            sv == views(sl@),
            pairs(m@) == mv,
            base@ == base_dir(opf_path@),
            views(r@) == spine_paths_from(sv.subrange(0, j as int), mv, base@),
        decreases sl@.len() - j,
    {
        let l = sl[j].as_str();
        let ghost before = views(r@);
        assert(sv.subrange(0, j + 1).drop_last() =~= sv.subrange(0, j as int));
        assert(sv.subrange(0, j + 1).last() == l@);
        if contiene(l, "<itemref ") {
            if let Some(idref) = extraer_atributo(l, "idref") {
                if let Some(h) = buscar_href(&m, &idref) {
                    let p = resolver(&base, &h);
                    r.push(p);
                }
            }
        }
        assert(views(r@) =~= spine_paths_from(sv.subrange(0, j + 1), mv, base@));
        j = j + 1;
    }
    assert(sv.subrange(0, j as int) =~= sv);
    r
}

/// A path without any trailing `.epub` suffixes.
pub open spec fn trim_epub(p: Seq<char>) -> Seq<char>
    decreases p.len(),
{
    if p.len() >= 5 && p.subrange(p.len() - 5, p.len() as int) == seq!['.', 'e', 'p', 'u', 'b'] {
        trim_epub(p.subrange(0, p.len() - 5))
    } else {
        p
    }
}

/// The braille file written for an EPUB file: its path without the `.epub`
/// suffixes, then `_braille.bin`.
pub fn ruta_bin(epub_path: &str) -> (r: String)
    ensures
        r@ == trim_epub(epub_path@) + "_braille.bin"@,
{
    let p = caracteres(epub_path);
    let mut k = p.len();
    assert(p@.subrange(0, k as int) =~= p@);
    while k >= 5 && p[k - 5] == '.' && p[k - 4] == 'e' && p[k - 3] == 'p' && p[k - 2] == 'u' && p[k
        - 1] == 'b'
        invariant
            k <= p@.len(),
            trim_epub(p@.subrange(0, k as int)) == trim_epub(epub_path@),
            p@ == epub_path@,
        decreases k,
    {
        let ghost q = p@.subrange(0, k as int);
        assert(q.subrange(q.len() - 5, q.len() as int) =~= seq!['.', 'e', 'p', 'u', 'b']);
        assert(q.subrange(0, q.len() - 5) =~= p@.subrange(0, k - 5));
        k = k - 5;
    }
    proof {
        let q = p@.subrange(0, k as int);
        if q.len() >= 5 {
            if q.subrange(q.len() - 5, q.len() as int) == seq!['.', 'e', 'p', 'u', 'b'] {
                assert(q.subrange(q.len() - 5, q.len() as int)[0] == p@[k - 5]);
                assert(q.subrange(q.len() - 5, q.len() as int)[1] == p@[k - 4]);
                assert(q.subrange(q.len() - 5, q.len() as int)[2] == p@[k - 3]);
                assert(q.subrange(q.len() - 5, q.len() as int)[3] == p@[k - 2]);
                assert(q.subrange(q.len() - 5, q.len() as int)[4] == p@[k - 1]);
            }
        }
    }
    let mut r = cadena_de(vstd::slice::slice_subrange(p.as_slice(), 0, k));
    r.append("_braille.bin");
    r
}

} // verus!
