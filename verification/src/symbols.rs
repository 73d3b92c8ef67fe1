//! The document outline: keys, tables and arrays of tables as a tree of symbols.
use vstd::prelude::*;
use vstd::string::StringSliceAdditionalSpecFns;
use vstd::utf8::*;

use crate::document::{model_of, AtmlDocument, DocModel, SourceItem};
use crate::paths::{clone_path, join, join_spec, path_starts_with, pv};
use crate::text::{
    bytes_of, find_in, lemma_ascii_boundaries, lemma_trim_end_boundary, lemma_trim_start_boundary, lemma_view_from_bytes, matches_at,
    matches_within, owned_substr, string_bytes, trim_end_pos, trim_end_to, trim_start_from,
    trim_start_pos,
};
use crate::{ByteRange, Symbol, SymbolKind};

verus! {

broadcast use vstd::utf8::encode_utf8_valid_utf8;

/// One symbol of the outline without its children: name (UTF-8), kind,
/// range, and the position of its parent among the symbols found before it.
pub struct SymbolEntry {
    pub name: Seq<u8>,
    pub kind: SymbolKind,
    pub range: ByteRange,
    pub parent: Option<int>,
}

/// The state of the outline scan between two document items.
pub struct OutlineScan {
    /// Where the search for the next item's text starts.
    pub cursor: int,
    /// The last table symbol found: where keys go.
    pub current: Option<int>,
    /// Each table symbol found, with its key path.
    pub known: Seq<(Seq<Seq<char>>, int)>,
    pub entries: Seq<SymbolEntry>,
}

/// The first occurrence of `pat` in `s` at or after `from`.
pub open spec fn find_from(s: Seq<u8>, from: int, pat: Seq<u8>) -> Option<int>
    decreases s.len() - from,
{
    if from < 0 || from + pat.len() > s.len() {
        None
    } else if matches_at(s, from, pat) {
        Some(from)
    } else {
        find_from(s, from + 1, pat)
    }
}

pub proof fn lemma_find_from(s: Seq<u8>, from: int, pat: Seq<u8>)
    requires
        0 <= from,
    ensures
        match find_from(s, from, pat) {
            Some(i) => from <= i && matches_at(s, i, pat) && forall|j: int| from <= j < i ==> !matches_at(s, j, pat),
            None => forall|j: int| from <= j ==> !matches_at(s, j, pat),
        },
    decreases s.len() - from,
{
    if from + pat.len() <= s.len() && !matches_at(s, from, pat) {
        lemma_find_from(s, from + 1, pat);
    }
}

/// `b` without its trailing `[]` pairs.
pub open spec fn strip_bracket_pairs(b: Seq<u8>) -> Seq<u8>
    decreases b.len(),
{
    if b.len() >= 2 && b[b.len() - 2] == 91 && b[b.len() - 1] == 93 {
        strip_bracket_pairs(b.subrange(0, b.len() - 2))
    } else {
        b
    }
}

/// `b` without leading and trailing White_Space characters.
pub open spec fn trim_bytes(b: Seq<u8>) -> Seq<u8> {
    let start = trim_start_pos(b, 0, b.len() as int);
    b.subrange(start, trim_end_pos(b, start, b.len() as int))
}

/// The name a key symbol shows: the authored key, trimmed, without `[]` suffixes.
pub open spec fn key_symbol_name(raw_key: Seq<u8>) -> Seq<u8> {
    strip_bracket_pairs(trim_bytes(raw_key))
}

/// What an item contributes to the outline: the text to find, its key path and kind.
pub open spec fn item_symbol(item: SourceItem) -> Option<(Seq<u8>, Seq<Seq<char>>, SymbolKind)> {
    match item {
        SourceItem::Entry { node, path } => Some((bytes_of(node.raw_key), pv(path@), SymbolKind::Key)),
        SourceItem::Section(section) => Some(
            (
                bytes_of(section.raw),
                pv(section.path@),
                if section.is_array {
                    SymbolKind::ArrayOfTables
                } else {
                    SymbolKind::Table
                },
            ),
        ),
        SourceItem::Eof => None,
    }
}

/// Among the first `n` known tables, the position of the last one whose path
/// is a longest proper prefix of `path`.
pub open spec fn best_parent(known: Seq<(Seq<Seq<char>>, int)>, path: Seq<Seq<char>>, n: int) -> Option<int>
    decreases n,
{
    if n <= 0 {
        None
    } else {
        let prev = best_parent(known, path, n - 1);
        let c = known[n - 1].0;
        if c.len() < path.len() && c.is_prefix_of(path) && (prev matches Some(p) ==> known[p].0.len() <= c.len()) {
            Some(n - 1)
        } else {
            prev
        }
    }
}

/// The outline scan after one more item.
pub open spec fn outline_step(src: Seq<u8>, st: OutlineScan, item: SourceItem) -> OutlineScan {
    match item_symbol(item) {
        None => st,
        Some((needle, path, kind)) => match find_from(src, st.cursor, needle) {
            None => st,
            Some(start) => {
                let end = start + needle.len();
                let parent = if kind == SymbolKind::Key {
                    st.current
                } else {
                    match best_parent(st.known, path, st.known.len() as int) {
                        Some(k) => Some(st.known[k].1),
                        None => None,
                    }
                };
                let name = if kind == SymbolKind::Key {
                    key_symbol_name(needle)
                } else if parent is Some {
                    if path.len() > 0 {
                        encode_utf8(path.last())
                    } else {
                        Seq::empty()
                    }
                } else {
                    encode_utf8(join_spec(path, "."@))
                };
                let position = st.entries.len() as int;
                let entry = SymbolEntry { name, kind, range: ByteRange { start: start as usize, end: end as usize }, parent };
                if kind == SymbolKind::Key {
                    OutlineScan { cursor: end, entries: st.entries.push(entry), ..st }
                } else {
                    OutlineScan {
                        cursor: end,
                        current: Some(position),
                        known: st.known.push((path, position)),
                        entries: st.entries.push(entry),
                    }
                }
            },
        },
    }
}

/// The outline scan after the first `n` items.
pub open spec fn outline_scan(src: Seq<u8>, items: Seq<SourceItem>, n: int) -> OutlineScan
    decreases n,
{
    if n <= 0 {
        OutlineScan { cursor: 0, current: None, known: Seq::empty(), entries: Seq::empty() }
    } else {
        outline_step(src, outline_scan(src, items, n - 1), items[n - 1])
    }
}

/// The symbols of a document, in the order found.
pub open spec fn outline_entries(src: Seq<u8>, doc: DocModel) -> Seq<SymbolEntry> {
    outline_scan(src, doc.0, doc.0.len() as int).entries
}

/// Positions, among the first `n` entries, of those whose parent is `parent`.
pub open spec fn children_at(entries: Seq<SymbolEntry>, parent: Option<int>, n: int) -> Seq<int>
    decreases n,
{
    if n <= 0 {
        Seq::empty()
    } else if entries[n - 1].parent == parent {
        children_at(entries, parent, n - 1).push(n - 1)
    } else {
        children_at(entries, parent, n - 1)
    }
}

/// `s` is the tree of entry `i`: its name, kind and range, and as children the
/// trees of the entries whose parent it is, in order.
pub open spec fn symbol_tree(s: Symbol, entries: Seq<SymbolEntry>, i: int) -> bool
    decreases s,
{
    let kids = children_at(entries, Some(i), entries.len() as int);
    &&& 0 <= i < entries.len()
    &&& bytes_of(s.name) == entries[i].name
    &&& s.kind == entries[i].kind
    &&& s.range == entries[i].range
    &&& s.children@.len() == kids.len()
    &&& forall|k: int|
        0 <= k < s.children@.len() ==> symbol_tree(#[trigger] s.children@[k], entries, kids[k])
}

/// `roots` are the trees of the entries without a parent, in order.
pub open spec fn symbol_forest(roots: Seq<Symbol>, entries: Seq<SymbolEntry>) -> bool {
    let tops = children_at(entries, None, entries.len() as int);
    &&& roots.len() == tops.len()
    &&& forall|k: int| 0 <= k < roots.len() ==> symbol_tree(#[trigger] roots[k], entries, tops[k])
}

/// Every parent comes before its children.
pub open spec fn parents_first(entries: Seq<SymbolEntry>) -> bool {
    forall|i: int| 0 <= i < entries.len() ==> ((#[trigger] entries[i]).parent matches Some(p) ==> 0 <= p < i)
}

pub proof fn lemma_children_at(entries: Seq<SymbolEntry>, parent: Option<int>, n: int)
    requires
        0 <= n <= entries.len(),
    ensures
        forall|k: int| 0 <= k < children_at(entries, parent, n).len() ==> {
            &&& 0 <= #[trigger] children_at(entries, parent, n)[k] < n
            &&& entries[children_at(entries, parent, n)[k]].parent == parent
        },
    decreases n,
{
    if n > 0 {
        lemma_children_at(entries, parent, n - 1);
    }
}

/// An entry of the flat outline, before the tree is built.
struct FlatSymbol {
    name: String,
    kind: SymbolKind,
    range: ByteRange,
    parent: Option<usize>,
}

spec fn flat_entry(f: FlatSymbol) -> SymbolEntry {
    SymbolEntry {
        name: bytes_of(f.name),
        kind: f.kind,
        range: f.range,
        parent: match f.parent {
            Some(p) => Some(p as int),
            None => None,
        },
    }
}

spec fn flat_entries(v: Seq<FlatSymbol>) -> Seq<SymbolEntry> {
    v.map_values(|f: FlatSymbol| flat_entry(f))
}

spec fn known_view(v: Seq<(Vec<String>, usize)>) -> Seq<(Seq<Seq<char>>, int)> {
    v.map_values(|k: (Vec<String>, usize)| (pv(k.0@), k.1 as int))
}

/// `trim_end_matches("[]")` on `b[..end]`, as the new end.
fn strip_pairs_end(b: &[u8], from: usize, end: usize) -> (r: usize)
    requires
        from <= end <= b@.len(),
    ensures
        from <= r <= end,
        b@.subrange(from as int, r as int) == strip_bracket_pairs(b@.subrange(from as int, end as int)),
        forall|j: int| r <= j < end ==> (#[trigger] b@[j] == 91 || b@[j] == 93),
{
    let mut e = end;
    while e - from >= 2 && b[e - 2] == 91 && b[e - 1] == 93
        invariant
            from <= e <= end <= b@.len(),
            strip_bracket_pairs(b@.subrange(from as int, e as int)) == strip_bracket_pairs(
                b@.subrange(from as int, end as int),
            ),
            forall|j: int| e <= j < end ==> (#[trigger] b@[j] == 91 || b@[j] == 93),
        decreases e,
    {
        proof {
            let t = b@.subrange(from as int, e as int);
            assert(t.subrange(0, t.len() - 2) =~= b@.subrange(from as int, e - 2));
        }
        e = e - 2;
    }
    e
}

/// The name of a key symbol.
fn key_name(raw_key: &String) -> (r: String)
    ensures
        bytes_of(r) == key_symbol_name(bytes_of(*raw_key)),
{
    let text = raw_key.as_str();
    let b = text.as_bytes();
    proof {
        lemma_view_from_bytes(text);
        is_char_boundary_start_end_of_seq(b@);
    }
    let start = trim_start_from(b, 0, b.len());
    let end = trim_end_to(b, start, b.len());
    proof {
        lemma_trim_start_boundary(b@, 0, b@.len() as int);
        lemma_trim_end_boundary(b@, start as int, b@.len() as int);
    }
    let stripped = strip_pairs_end(b, start, end);
    proof {
        assert(b@.subrange(start as int, end as int) =~= trim_bytes(b@));
        if stripped < end {
            assert(b@[stripped as int] == 91 || b@[stripped as int] == 93);
            lemma_ascii_boundaries(b@, stripped as int);
        }
    }
    owned_substr(text, start, stripped)
}

/// The position, among `known`, of the best parent table for `path`.
fn best_parent_exec(known: &Vec<(Vec<String>, usize)>, path: &Vec<String>) -> (r: Option<usize>)
    ensures
        match r {
            Some(k) => best_parent(known_view(known@), pv(path@), known@.len() as int) == Some(k as int)
                && k < known@.len(),
            None => best_parent(known_view(known@), pv(path@), known@.len() as int) is None,
        },
{
    let ghost kv = known_view(known@);
    let mut best: Option<usize> = None;
    let mut i: usize = 0;
    while i < known.len()
        invariant
            kv == known_view(known@),
            i <= known@.len(),
            match best {
                Some(k) => best_parent(kv, pv(path@), i as int) == Some(k as int) && k < i,
                None => best_parent(kv, pv(path@), i as int) is None,
            },
        decreases known@.len() - i,
    {
        let candidate = &known[i].0;
        let is_parent = candidate.len() < path.len() && path_starts_with(path.as_slice(), candidate.as_slice());
        let better = match best {
            Some(k) => known[k].0.len() <= candidate.len(),
            None => true,
        };
        proof {
            assert(kv[i as int].0 == pv(candidate@));
            if let Some(k) = best {
                assert(kv[k as int].0 == pv(known@[k as int].0@));
            }
        }
        if is_parent && better {
            best = Some(i);
        }
        i = i + 1;
    }
    best
}

/// The outline of a document: one symbol per key, table and array-of-tables
/// header found in the source, in order; keys belong to the last table found
/// before them, and tables to the deepest table found before them whose path
/// is a proper prefix of theirs.
pub fn collect_symbols(source: &str, document: &AtmlDocument) -> (r: Vec<Symbol>)
    ensures
        symbol_forest(r@, outline_entries(source.spec_bytes(), model_of(*document))),
{
    let bytes = source.as_bytes();
    let ghost src = bytes@;
    proof {
        lemma_view_from_bytes(source);
    }
    let ghost items = document.items@;
    let mut entries: Vec<FlatSymbol> = Vec::new();
    let mut known: Vec<(Vec<String>, usize)> = Vec::new();
    let mut current: Option<usize> = None;
    let mut cursor: usize = 0;
    let mut i: usize = 0;
    while i < document.items.len()
        invariant
            bytes@ == src,
            src == source.spec_bytes(),
            items == document.items@,
            i <= items.len(),
            cursor <= src.len(),
            ({
                let st = outline_scan(src, items, i as int);
                &&& st.cursor == cursor as int
                &&& st.current == match current {
                    Some(c) => Some(c as int),
                    None => None::<int>,
                }
                &&& st.known == known_view(known@)
                &&& st.entries == flat_entries(entries@)
            }),
            current matches Some(c) ==> c < entries@.len(),
            forall|k: int| 0 <= k < known@.len() ==> (#[trigger] known@[k]).1 < entries@.len(),
            parents_first(flat_entries(entries@)),
        decreases items.len() - i,
    {
        let ghost st = outline_scan(src, items, i as int);
        let (needle, path, kind): (&String, &Vec<String>, SymbolKind) = match &document.items[i] {
            SourceItem::Entry { node, path } => (&node.raw_key, path, SymbolKind::Key),
            SourceItem::Section(section) => (
                &section.raw,
                &section.path,
                if section.is_array {
                    SymbolKind::ArrayOfTables
                } else {
                    SymbolKind::Table
                },
            ),
            SourceItem::Eof => {
                i = i + 1;
                continue;
            },
        };
        assert(item_symbol(items[i as int]) == Some((bytes_of(*needle), pv(path@), kind)));
        let pat = string_bytes(needle);
        let found = find_in(bytes, cursor, bytes.len(), pat);
        proof {
            lemma_find_from(src, cursor as int, pat@);
            match found {
                Some(s) => {
                    assert(matches_within(src, cursor as int, src.len() as int, s as int, pat@));
                    match find_from(src, cursor as int, pat@) {
                        Some(t) => {
                            if t < s {
                                assert(matches_within(src, cursor as int, src.len() as int, t, pat@));
                            }
                        },
                        None => {},
                    }
                },
                None => {
                    match find_from(src, cursor as int, pat@) {
                        Some(t) => {
                            assert(matches_within(src, cursor as int, src.len() as int, t, pat@));
                        },
                        None => {},
                    }
                },
            }
        }
        match found {
            None => {},
            Some(start) => {
                let end = start + pat.len();
                let position = entries.len();
                let parent: Option<usize> = if kind == SymbolKind::Key {
                    current
                } else {
                    match best_parent_exec(&known, path) {
                        Some(k) => Some(known[k].1),
                        None => None,
                    }
                };
                let name = if kind == SymbolKind::Key {
                    key_name(needle)
                } else if parent.is_some() {
                    if path.len() > 0 {
                        path[path.len() - 1].clone()
                    } else {
                        String::new()
                    }
                } else {
                    join(path.as_slice(), ".")
                };
                proof {
                    if kind != SymbolKind::Key && parent is Some && path@.len() > 0 {
                        assert(pv(path@).last() == path@.last()@);
                    }
                }
                let ghost before = entries@;
                entries.push(FlatSymbol { name, kind, range: ByteRange { start, end }, parent });
                proof {
                    assert(flat_entries(entries@) =~= flat_entries(before).push(flat_entry(entries@[position as int])));
                    assert forall|k: int| 0 <= k < entries@.len() implies ((#[trigger] flat_entries(entries@)[k]).parent matches Some(p) ==> 0 <= p < k) by {
                        if k < before.len() {
                            assert(flat_entries(entries@)[k] == flat_entries(before)[k]);
                        }
                    }
                }
                if kind != SymbolKind::Key {
                    let ghost kbefore = known@;
                    known.push((clone_path(path.as_slice()), position));
                    current = Some(position);
                    proof {
                        assert(known_view(known@) =~= known_view(kbefore).push((pv(path@), position as int)));
                    }
                }
                cursor = end;
            },
        }
        i = i + 1;
    }
    let ghost all = flat_entries(entries@);
    let roots = build_children(&entries, None);
    roots
}

/// The trees of the entries whose parent is `parent`, in order.
fn build_children(entries: &Vec<FlatSymbol>, parent: Option<usize>) -> (r: Vec<Symbol>)
    requires
        parents_first(flat_entries(entries@)),
        parent matches Some(p) ==> p < entries@.len(),
    ensures
        ({
            let es = flat_entries(entries@);
            let p = match parent {
                Some(p) => Some(p as int),
                None => None::<int>,
            };
            let kids = children_at(es, p, es.len() as int);
            &&& r@.len() == kids.len()
            &&& forall|k: int| 0 <= k < r@.len() ==> symbol_tree(#[trigger] r@[k], es, kids[k])
        }),
    decreases entries@.len() - match parent {
        Some(p) => p as int,
        None => -1int,
    },
{
    let ghost es = flat_entries(entries@);
    let ghost p = match parent {
        Some(p) => Some(p as int),
        None => None::<int>,
    };
    let mut out: Vec<Symbol> = Vec::new();
    let mut j: usize = 0;
    while j < entries.len()
        invariant
            es == flat_entries(entries@),
            parents_first(es),
            p == match parent {
                Some(q) => Some(q as int),
                None => None::<int>,
            },
            parent matches Some(q) ==> q < entries@.len(),
            j <= entries@.len(),
            out@.len() == children_at(es, p, j as int).len(),
            forall|k: int| 0 <= k < out@.len() ==> symbol_tree(#[trigger] out@[k], es, children_at(es, p, j as int)[k]),
        decreases entries@.len() - j,
    {
        let e = &entries[j];
        let is_child = match (e.parent, parent) {
            (Some(a), Some(b)) => a == b,
            (None, None) => true,
            _ => false,
        };
        proof {
            assert(es[j as int] == flat_entry(*e));
            assert(is_child == (es[j as int].parent == p));
        }
        if is_child {
            proof {
                assert(parents_first(es));
                assert(es[j as int].parent == p);
            }
            let children = build_children(entries, Some(j));
            let ghost before = out@;
            out.push(Symbol { name: e.name.clone(), kind: e.kind, range: e.range, children });
            proof {
                let kids = children_at(es, p, j + 1);
                assert(kids == children_at(es, p, j as int).push(j as int));
                assert forall|k: int| 0 <= k < out@.len() implies symbol_tree(#[trigger] out@[k], es, kids[k]) by {
                    if k < before.len() {
                        assert(out@[k] == before[k]);
                    }
                }
            }
        }
        j = j + 1;
    }
    out
}


/// `c` is a proper prefix of `path`.
pub open spec fn proper_prefix(c: Seq<Seq<char>>, path: Seq<Seq<char>>) -> bool {
    c.len() < path.len() && c.is_prefix_of(path)
}

/// The parent chosen among the first `n` known tables has a proper prefix of
/// `path` that no other known table's proper prefix is longer than; when none
/// is chosen, no known table's path is a proper prefix of `path`.
proof fn lemma_best_parent(known: Seq<(Seq<Seq<char>>, int)>, path: Seq<Seq<char>>, n: int)
    requires
        0 <= n <= known.len(),
    ensures
        match best_parent(known, path, n) {
            Some(k) => 0 <= k < n && proper_prefix(known[k].0, path) && forall|j: int|
                0 <= j < n && proper_prefix(#[trigger] known[j].0, path) ==> known[j].0.len() <= known[k].0.len(),
            None => forall|j: int| 0 <= j < n ==> !proper_prefix(#[trigger] known[j].0, path),
        },
    decreases n,
{
    if n > 0 {
        lemma_best_parent(known, path, n - 1);
    }
}

/// A table or array-of-tables symbol is placed under the table found before
/// it whose key path is the longest proper prefix of its own: the parent's
/// path is a proper prefix, and no earlier table has a longer one. Without
/// such a table it has no parent.
pub proof fn lemma_table_parent(src: Seq<u8>, st: OutlineScan, item: SourceItem)
    ensures
        match item_symbol(item) {
            Some((needle, path, kind)) => kind != SymbolKind::Key && outline_step(src, st, item).entries.len()
                > st.entries.len() ==> match outline_step(src, st, item).entries.last().parent {
                Some(p) => exists|k: int|
                    0 <= k < st.known.len() && (#[trigger] st.known[k]).1 == p && proper_prefix(st.known[k].0, path)
                        && forall|j: int|
                        0 <= j < st.known.len() && proper_prefix(#[trigger] st.known[j].0, path) ==> st.known[j].0.len()
                            <= st.known[k].0.len(),
                None => forall|j: int| 0 <= j < st.known.len() ==> !proper_prefix(#[trigger] st.known[j].0, path),
            },
            None => true,
        },
{
    if let Some((needle, path, kind)) = item_symbol(item) {
        lemma_best_parent(st.known, path, st.known.len() as int);
    }
}

} // verus!
