//! Building the semantic index from a parsed document.
use vstd::prelude::*;
use vstd::string::StringSliceAdditionalSpecFns;
use vstd::utf8::*;

use crate::cycles::{cycle_paths, detect_cycles, is_closed_walk, is_edge, is_simple, same_nodes};
use crate::document::{
    model_of, AtmlDocument, DocModel, QuantityMagnitude, QuantitySeparator, QuantityValue, ScalarValue, SemanticChoice, SemanticValue,
    SourceArray, SourceEntry, SourceItem, SourceValue, TableEntry,
};
use crate::editing::{first_byte_in, lemma_first_byte_in, lemma_first_byte_in_bounds};
use crate::paths::{clone_path, path_eq, pv};
use crate::semantic::{
    id_for_path, ids_are_positions, last_with_path, lemma_last_with_path, parse_path_reference,
    spec_is_path_reference_target, spec_path_reference, spec_value_at_path, spec_value_type, value_at_path, value_type, CycleKind, Definition, DefinitionId,
    DefinitionKind, InheritanceEdge, QuantityOccurrence, Reference, ReferenceKind, SemanticIndex,
    ValueType,
};
use crate::text::{
    bytes_of, decimal_bytes, decimal_string, find_byte, find_in, lemma_ascii_boundaries, matches_at, trim_end_pos, trim_start_pos, lemma_trim_end_boundary, lemma_trim_start_boundary, lemma_view_from_bytes, matches_within, owned_substr, str_get,
    string_bytes, trim_end_to, trim_start_from,
};
use crate::ByteRange;

verus! {

broadcast use {vstd::utf8::encode_utf8_valid_utf8, vstd::utf8::is_char_boundary_start_end_of_seq};

/// `r` lies inside the text and both ends are character boundaries.
pub open spec fn located(src: Seq<u8>, r: ByteRange) -> bool {
    &&& r.start <= r.end <= src.len()
    &&& is_char_boundary(src, r.start as int)
    &&& is_char_boundary(src, r.end as int)
}

/// A definition's name is the last segment of its path.
pub open spec fn name_matches_path(d: Definition) -> bool {
    d.name@ == if d.path@.len() > 0 {
        d.path@.last()@
    } else {
        Seq::<char>::empty()
    }
}

/// The text at `r`'s range is a bare path reference whose segments are the
/// reference's target path.
pub open spec fn target_written(src: Seq<u8>, r: Reference) -> bool {
    spec_path_reference(src.subrange(r.range.start as int, r.range.end as int)) matches Some(pieces)
        && r.target_path@.len() == pieces.len() && forall|k: int|
        0 <= k < pieces.len() ==> bytes_of(#[trigger] r.target_path@[k]) == pieces[k]
}

/// A quantity's range lies in the text and its number ends on a character
/// boundary.
pub open spec fn quantity_placed(src: Seq<u8>, q: QuantityOccurrence) -> bool {
    &&& located(src, q.range)
    &&& is_char_boundary(src, crate::editing::quantity_number_end(q))
}

/// Where the number of the quantity `v` authored at `range` ends: before its
/// unit, separator and super unit.
pub open spec fn value_number_end(range: ByteRange, v: QuantityValue) -> int {
    let len = range.end - range.start;
    let suffix = bytes_of(v.unit).len() + (if v.separator is Some { 1int } else { 0int }) + match v.super_unit {
        Some(u) => bytes_of(u).len() as int,
        None => 0int,
    };
    range.start + if len > suffix { len - suffix } else { 0 }
}

/// The shape every index built from a document has, whatever the document:
/// every range it records lies in the text on character boundaries.
pub open spec fn index_shape(src: Seq<u8>, index: SemanticIndex) -> bool {
    &&& ids_are_positions(index.definitions@)
    &&& forall|i: int|
        0 <= i < index.definitions@.len() ==> name_matches_path(#[trigger] index.definitions@[i])
    &&& forall|i: int|
        0 <= i < index.definitions@.len() ==> located(src, (#[trigger] index.definitions@[i]).selection_range)
    &&& forall|i: int|
        0 <= i < index.definitions@.len() && (#[trigger] index.definitions@[i]).kind
            != DefinitionKind::EnumMember ==> index.definitions@[i].range.start == index.definitions@[i].selection_range.start
    &&& forall|i: int|
        0 <= i < index.references@.len() ==> {
            let r = #[trigger] index.references@[i];
            &&& r.kind != ReferenceKind::Inheritance
            &&& located(src, r.range)
            &&& r.kind == ReferenceKind::Path ==> spec_is_path_reference_target(r.target_path@) && target_written(src, r)
            &&& r.kind == ReferenceKind::EnumMember ==> r.target_path@.len() >= 1
        }
    &&& forall|i: int| 0 <= i < index.quantities@.len() ==> quantity_placed(src, #[trigger] index.quantities@[i])
    &&& forall|i: int| 0 <= i < index.inheritance@.len() ==> located(src, (#[trigger] index.inheritance@[i]).range)
}

/// State while collecting: nothing is resolved yet.
spec fn collecting(src: Seq<u8>, index: SemanticIndex) -> bool {
    &&& index_shape(src, index)
    &&& forall|i: int|
        0 <= i < index.references@.len() ==> (#[trigger] index.references@[i]).target is None
    &&& index.cycles@.len() == 0
}

/// The first position at or after `from` where `pat` occurs in `s`.
pub open spec fn first_match(s: Seq<u8>, from: int, pat: Seq<u8>) -> Option<int>
    decreases s.len() - from,
{
    if from < 0 || from + pat.len() > s.len() {
        None
    } else if matches_at(s, from, pat) {
        Some(from)
    } else {
        first_match(s, from + 1, pat)
    }
}

proof fn lemma_first_match(s: Seq<u8>, from: int, pat: Seq<u8>)
    requires
        0 <= from,
    ensures
        match first_match(s, from, pat) {
            Some(i) => matches_within(s, from, s.len() as int, i, pat) && forall|j: int|
                from <= j < i ==> !#[trigger] matches_within(s, from, s.len() as int, j, pat),
            None => forall|j: int| !#[trigger] matches_within(s, from, s.len() as int, j, pat),
        },
    decreases s.len() - from,
{
    if from + pat.len() <= s.len() && !matches_at(s, from, pat) {
        lemma_first_match(s, from + 1, pat);
        assert forall|j: int| #[trigger] matches_within(s, from, s.len() as int, j, pat) implies matches_within(
            s,
            from + 1,
            s.len() as int,
            j,
            pat,
        ) by {
            assert(j != from);
        }
    }
}

proof fn lemma_first_match_unique(s: Seq<u8>, from: int, pat: Seq<u8>, i: int)
    requires
        0 <= from,
        matches_within(s, from, s.len() as int, i, pat),
        forall|j: int| from <= j < i ==> !#[trigger] matches_within(s, from, s.len() as int, j, pat),
    ensures
        first_match(s, from, pat) == Some(i),
{
    lemma_first_match(s, from, pat);
    if let Some(k) = first_match(s, from, pat) {
        if k < i {
            assert(matches_within(s, from, s.len() as int, k, pat));
        } else if k > i {
            assert(!matches_within(s, from, s.len() as int, i, pat));
        }
    }
}

/// Where `locate` finds `needle`: its first occurrence at or after the
/// cursor, when the cursor is a character boundary of the text.
pub open spec fn spec_locate(src: Seq<u8>, cursor: int, needle: Seq<u8>) -> Option<ByteRange> {
    if cursor <= src.len() && is_char_boundary(src, cursor) {
        match first_match(src, cursor, needle) {
            Some(i) => Some(ByteRange { start: i as usize, end: (i + needle.len()) as usize }),
            None => None,
        }
    } else {
        None
    }
}

/// `q` records the quantity `v` authored at `range` under key `path`.
pub open spec fn quantity_is(q: QuantityOccurrence, path: Seq<String>, range: ByteRange, v: QuantityValue) -> bool {
    &&& q.path@ == path
    &&& q.range == range
    &&& q.magnitude == v.magnitude
    &&& q.unit == v.unit
    &&& q.separator == v.separator
    &&& q.super_unit == v.super_unit
}

/// What a definition records besides its id and name, which follow from its
/// position and its path: path, kind, value type, range and selection range.
pub type DefView = (Seq<Seq<char>>, DefinitionKind, ValueType, ByteRange, ByteRange);

/// What a reference records before resolution: kind, source, target and range.
pub type RefView = (ReferenceKind, Seq<Seq<char>>, Seq<Seq<char>>, ByteRange);

/// What a quantity occurrence records: key path, range and the quantity's parts.
pub type QuantView = (Seq<Seq<char>>, ByteRange, QuantityMagnitude, String, Option<QuantitySeparator>, Option<String>);

/// What an inheritance edge records before resolution: child, parent and range.
pub type EdgeView = (Seq<Seq<char>>, Seq<Seq<char>>, ByteRange);

pub open spec fn def_view(d: Definition) -> DefView {
    (pv(d.path@), d.kind, d.value_type, d.range, d.selection_range)
}

pub open spec fn defs_view(s: Seq<Definition>) -> Seq<DefView> {
    s.map_values(|d: Definition| def_view(d))
}

pub open spec fn ref_view(r: Reference) -> RefView {
    (r.kind, pv(r.source_path@), pv(r.target_path@), r.range)
}

pub open spec fn refs_view(s: Seq<Reference>) -> Seq<RefView> {
    s.map_values(|r: Reference| ref_view(r))
}

pub open spec fn quant_view(q: QuantityOccurrence) -> QuantView {
    (pv(q.path@), q.range, q.magnitude, q.unit, q.separator, q.super_unit)
}

pub open spec fn quants_view(s: Seq<QuantityOccurrence>) -> Seq<QuantView> {
    s.map_values(|q: QuantityOccurrence| quant_view(q))
}

pub open spec fn edge_view(e: InheritanceEdge) -> EdgeView {
    (pv(e.child_path@), pv(e.parent_path@), e.range)
}

pub open spec fn edges_view(s: Seq<InheritanceEdge>) -> Seq<EdgeView> {
    s.map_values(|e: InheritanceEdge| edge_view(e))
}

/// The quantity `v` authored at `range` under the key `path`.
pub open spec fn quant_of(path: Seq<Seq<char>>, range: ByteRange, v: QuantityValue) -> QuantView {
    (path, range, v.magnitude, v.unit, v.separator, v.super_unit)
}

proof fn lemma_pv_push(p: Seq<String>, s: String)
    ensures
        pv(p.push(s)) == pv(p).push(s@),
{
    assert(pv(p.push(s)) =~= pv(p).push(s@));
}

proof fn lemma_map_push<A, B>(s: Seq<A>, x: A, f: spec_fn(A) -> B)
    ensures
        s.push(x).map_values(f) == s.map_values(f).push(f(x)),
{
    assert(s.push(x).map_values(f) =~= s.map_values(f).push(f(x)));
}

struct Builder<'a> {
    source: &'a str,
    document: &'a AtmlDocument,
    index: SemanticIndex,
    cursor: usize,
}

fn slen(s: &String) -> (n: usize)
    ensures
        n == bytes_of(*s).len(),
{
    string_bytes(s).len()
}

fn opt_len(s: &Option<String>) -> (n: usize)
    ensures
        n == match s {
            Some(t) => bytes_of(*t).len(),
            None => 0,
        },
{
    match s {
        Some(t) => slen(t),
        None => 0,
    }
}

/// `a + b`, saturating at `usize::MAX`.
pub open spec fn sat_add(a: int, b: int) -> int {
    if a + b > usize::MAX {
        usize::MAX as int
    } else {
        a + b
    }
}

/// Byte length of an optional authored piece.
pub open spec fn opt_bytes_len(s: Option<String>) -> int {
    match s {
        Some(t) => bytes_of(t).len() as int,
        None => 0,
    }
}

/// Authored byte length of a value: its raw text, or the sum of its parts
/// (sums saturate at `usize::MAX`).
pub open spec fn spec_node_len(node: SourceValue) -> int
    decreases node, 1int, 0int,
{
    match node {
        SourceValue::Scalar { raw, .. } => opt_bytes_len(raw),
        SourceValue::EnumSymbol { raw, .. } => bytes_of(raw).len() as int,
        SourceValue::Array(a) => sat_add(parts_len(node, a.elements@.len() as int), bytes_of(a.close).len() as int),
        SourceValue::InlineTable(t) => sat_add(parts_len(node, t.entries@.len() as int), bytes_of(t.close).len() as int),
    }
}

/// Length of the opening of an array or inline table and its first `n` parts.
pub open spec fn parts_len(node: SourceValue, n: int) -> int
    decreases node, 0int, n,
{
    match node {
        SourceValue::Array(a) => if n <= 0 {
            bytes_of(a.open).len() as int
        } else if n > a.elements@.len() {
            parts_len(node, a.elements@.len() as int)
        } else {
            let e = a.elements@[n - 1];
            proof {
                assert(decreases_to!(node => a));
                assert(decreases_to!(a => a.elements));
                assert(decreases_to!(a.elements => a.elements@));
                assert(decreases_to!(a.elements@ => a.elements@[n - 1]));
                assert(decreases_to!(a.elements@[n - 1] => a.elements@[n - 1].node));
            }
            sat_add(
                sat_add(
                    sat_add(sat_add(parts_len(node, n - 1), bytes_of(e.leading).len() as int), spec_node_len(e.node)),
                    bytes_of(e.trailing).len() as int,
                ),
                opt_bytes_len(e.comma),
            )
        },
        SourceValue::InlineTable(t) => if n <= 0 {
            bytes_of(t.open).len() as int
        } else if n > t.entries@.len() {
            parts_len(node, t.entries@.len() as int)
        } else {
            let e = t.entries@[n - 1];
            proof {
                assert(decreases_to!(node => t));
                assert(decreases_to!(t => t.entries));
                assert(decreases_to!(t.entries => t.entries@));
                assert(decreases_to!(t.entries@ => t.entries@[n - 1]));
                assert(decreases_to!(t.entries@[n - 1] => t.entries@[n - 1].node));
            }
            let head = sat_add(
                sat_add(
                    sat_add(
                        sat_add(sat_add(parts_len(node, n - 1), bytes_of(e.leading).len() as int), bytes_of(e.raw_key).len() as int),
                        bytes_of(e.pre_eq).len() as int,
                    ),
                    1,
                ),
                bytes_of(e.post_eq).len() as int,
            );
            sat_add(
                sat_add(sat_add(head, spec_node_len(e.node)), bytes_of(e.trailing).len() as int),
                opt_bytes_len(e.comma),
            )
        },
        _ => 0,
    }
}

/// The references and quantities authored in a scalar that starts at byte
/// `start` of `src` and is the value of the key `path`, when its range lies
/// in the text: a bare path reference written there, else an enum member
/// reference, or a quantity whose number ends on a character boundary.
pub open spec fn scalar_items(
    src: Seq<u8>,
    path: Seq<Seq<char>>,
    raw: Option<String>,
    value: ScalarValue,
    start: int,
) -> (Seq<RefView>, Seq<QuantView>) {
    let range = ByteRange { start: start as usize, end: sat_add(start, opt_bytes_len(raw)) as usize };
    let authored = src.subrange(range.start as int, range.end as int);
    if !located(src, range) {
        (Seq::empty(), Seq::empty())
    } else if raw is Some && spec_path_reference(authored) is Some {
        (
            seq![(ReferenceKind::Path, path, spec_path_reference(authored)->0.map_values(|p: Seq<u8>| decode_utf8(p)), range)],
            Seq::empty(),
        )
    } else {
        match value {
            ScalarValue::EnumRef { enum_path, symbol } => (
                seq![(ReferenceKind::EnumMember, path, pv(enum_path@).push(symbol@), range)],
                Seq::empty(),
            ),
            ScalarValue::Quantity(q) => if is_char_boundary(src, value_number_end(range, q)) {
                (Seq::empty(), seq![quant_of(path, range, q)])
            } else {
                (Seq::empty(), Seq::empty())
            },
            ScalarValue::Other => (Seq::empty(), Seq::empty()),
        }
    }
}

/// The references and quantities authored in `node`, which starts at byte
/// `start` of `src` and is the value of the key `path`. An array element is
/// keyed by its decimal index, an inline-table entry by its trimmed key.
pub open spec fn node_items(src: Seq<u8>, path: Seq<Seq<char>>, node: SourceValue, start: int) -> (
    Seq<RefView>,
    Seq<QuantView>,
)
    decreases node, 1int, 0int,
{
    match node {
        SourceValue::Scalar { raw, value } => scalar_items(src, path, raw, value, start),
        SourceValue::Array(a) => {
            let p = parts_items(src, path, node, start, a.elements@.len() as int);
            (p.0, p.1)
        },
        SourceValue::InlineTable(t) => {
            let p = parts_items(src, path, node, start, t.entries@.len() as int);
            (p.0, p.1)
        },
        SourceValue::EnumSymbol { .. } => (Seq::empty(), Seq::empty()),
    }
}

/// The items of the first `n` parts of an array or inline table that starts
/// at `start`, and where the part after them starts (sums saturate).
pub open spec fn parts_items(src: Seq<u8>, path: Seq<Seq<char>>, node: SourceValue, start: int, n: int) -> (
    Seq<RefView>,
    Seq<QuantView>,
    int,
)
    decreases node, 0int, n,
{
    match node {
        SourceValue::Array(a) => if n <= 0 {
            (Seq::empty(), Seq::empty(), sat_add(start, bytes_of(a.open).len() as int))
        } else if n > a.elements@.len() {
            parts_items(src, path, node, start, a.elements@.len() as int)
        } else {
            let e = a.elements@[n - 1];
            proof {
                assert(decreases_to!(node => a));
                assert(decreases_to!(a => a.elements));
                assert(decreases_to!(a.elements => a.elements@));
                assert(decreases_to!(a.elements@ => a.elements@[n - 1]));
                assert(decreases_to!(a.elements@[n - 1] => a.elements@[n - 1].node));
            }
            let prev = parts_items(src, path, node, start, n - 1);
            let at = sat_add(prev.2, bytes_of(e.leading).len() as int);
            let inner = node_items(src, path.push(decode_utf8(decimal_bytes((n - 1) as nat))), e.node, at);
            (
                prev.0 + inner.0,
                prev.1 + inner.1,
                sat_add(
                    sat_add(sat_add(at, spec_node_len(e.node)), bytes_of(e.trailing).len() as int),
                    opt_bytes_len(e.comma),
                ),
            )
        },
        SourceValue::InlineTable(t) => if n <= 0 {
            (Seq::empty(), Seq::empty(), sat_add(start, bytes_of(t.open).len() as int))
        } else if n > t.entries@.len() {
            parts_items(src, path, node, start, t.entries@.len() as int)
        } else {
            let e = t.entries@[n - 1];
            proof {
                assert(decreases_to!(node => t));
                assert(decreases_to!(t => t.entries));
                assert(decreases_to!(t.entries => t.entries@));
                assert(decreases_to!(t.entries@ => t.entries@[n - 1]));
                assert(decreases_to!(t.entries@[n - 1] => t.entries@[n - 1].node));
            }
            let prev = parts_items(src, path, node, start, n - 1);
            let at = sat_add(
                sat_add(
                    sat_add(
                        sat_add(sat_add(prev.2, bytes_of(e.leading).len() as int), bytes_of(e.raw_key).len() as int),
                        bytes_of(e.pre_eq).len() as int,
                    ),
                    1,
                ),
                bytes_of(e.post_eq).len() as int,
            );
            let inner = node_items(src, path.push(decode_utf8(trimmed_bytes(bytes_of(e.raw_key)))), e.node, at);
            (
                prev.0 + inner.0,
                prev.1 + inner.1,
                sat_add(
                    sat_add(sat_add(at, spec_node_len(e.node)), bytes_of(e.trailing).len() as int),
                    opt_bytes_len(e.comma),
                ),
            )
        },
        _ => (Seq::empty(), Seq::empty(), start),
    }
}

/// The member definitions that an enum declared at `enum_path` by the array
/// `a`, starting at `start`, gets for its first `n` elements, and where the
/// element after them starts. A member is named by its symbol, or by the
/// trimmed text of its value; one whose range is not in the text is left out.
pub open spec fn member_defs(
    src: Seq<u8>,
    enum_path: Seq<Seq<char>>,
    choices: Seq<SemanticChoice>,
    a: SourceArray,
    start: int,
    n: int,
) -> (Seq<DefView>, int)
    decreases n,
{
    if n <= 0 {
        (Seq::empty(), sat_add(start, bytes_of(a.open).len() as int))
    } else {
        let prev = member_defs(src, enum_path, choices, a, start, n - 1);
        let e = a.elements@[n - 1];
        let at = sat_add(prev.1, bytes_of(e.leading).len() as int);
        let range = ByteRange { start: at as usize, end: sat_add(at, spec_node_len(e.node)) as usize };
        let name = match choices[n - 1] {
            SemanticChoice::Symbol(s) => s@,
            SemanticChoice::Value(_) => decode_utf8(trimmed_bytes(src.subrange(range.start as int, range.end as int))),
        };
        let vt = match choices[n - 1] {
            SemanticChoice::Symbol(_) => ValueType::EnumReference,
            SemanticChoice::Value(v) => spec_value_type(v),
        };
        (
            if located(src, range) {
                prev.0.push((enum_path.push(name), DefinitionKind::EnumMember, vt, range, range))
            } else {
                prev.0
            },
            sat_add(sat_add(sat_add(at, spec_node_len(e.node)), bytes_of(e.trailing).len() as int), opt_bytes_len(e.comma)),
        )
    }
}

/// The member definitions of an enum declared at `enum_path` by `node`: one
/// per choice that has an element of the array, none unless `node` is an array.
pub open spec fn enum_member_defs(
    src: Seq<u8>,
    enum_path: Seq<Seq<char>>,
    choices: Seq<SemanticChoice>,
    node: SourceValue,
    start: int,
) -> Seq<DefView> {
    match node {
        SourceValue::Array(a) => member_defs(
            src,
            enum_path,
            choices,
            a,
            start,
            if choices.len() < a.elements@.len() { choices.len() as int } else { a.elements@.len() as int },
        ).0,
        _ => Seq::empty(),
    }
}

/// `"` or `'`.
pub open spec fn is_quote(c: u8) -> bool {
    c == 34 || c == 39
}

/// The number of `.` bytes in `b[from..to]`.
pub open spec fn dot_count(b: Seq<u8>, from: int, to: int) -> int
    decreases to - from,
{
    if from >= to {
        0
    } else {
        dot_count(b, from, to - 1) + if b[to - 1] == 46 { 1int } else { 0int }
    }
}

/// Some definition in `defs` has the path `p`.
pub open spec fn defined(defs: Seq<DefView>, p: Seq<Seq<char>>) -> bool {
    exists|j: int| 0 <= j < defs.len() && (#[trigger] defs[j]).0 == p
}

/// `defs` after the implicit tables of the dotted key at `key` (with `dots`
/// dots, of the path `path` whose first `base` segments lie outside the key)
/// are added from its `segment`-th dot on, the dots searched from `position`.
/// The table ending before a dot is named by the key's text up to that dot,
/// without trailing White_Space, and is added only where no definition has
/// its path yet.
pub open spec fn implicit_steps(
    src: Seq<u8>,
    key: ByteRange,
    path: Seq<Seq<char>>,
    base: int,
    dots: int,
    defs: Seq<DefView>,
    position: int,
    segment: int,
) -> Seq<DefView>
    decreases dots + 1 - segment,
{
    if segment > dots {
        defs
    } else {
        match first_byte_in(src, position, key.end as int, 46) {
            None => defs,
            Some(dot) => {
                let name = ByteRange { start: key.start, end: trim_end_pos(src, key.start as int, dot) as usize };
                let prefix = path.subrange(0, base + segment);
                let next = if defined(defs, prefix) {
                    defs
                } else {
                    defs.push((prefix, DefinitionKind::Table, ValueType::Table, name, name))
                };
                implicit_steps(src, key, path, base, dots, next, dot + 1, segment + 1)
            },
        }
    }
}

/// `defs` after the tables that the dotted key at `key`, of the entry whose
/// full path is `path`, defines on the way: none when the key holds a quote,
/// has no dot, or has as many dots as the path has segments or more.
pub open spec fn implicit_tables(src: Seq<u8>, key: ByteRange, path: Seq<Seq<char>>, defs: Seq<DefView>) -> Seq<
    DefView,
> {
    let dots = dot_count(src, key.start as int, key.end as int);
    if (exists|j: int| key.start <= j < key.end && is_quote(#[trigger] src[j])) || dots == 0 || dots >= path.len() {
        defs
    } else {
        implicit_steps(src, key, path, path.len() - dots - 1, dots, defs, key.start as int, 1)
    }
}

/// Authored byte length of a value: its raw text, or the sum of its parts.
/// (Sums saturate at `usize::MAX`.)
fn node_len(node: &SourceValue) -> (n: usize)
    ensures
        n == spec_node_len(*node),
    decreases node,
{
    match node {
        SourceValue::Scalar { raw, .. } => opt_len(raw),
        SourceValue::EnumSymbol { raw, .. } => slen(raw),
        SourceValue::Array(array) => {
            let mut total = slen(&array.open);
            let mut i: usize = 0;
            while i < array.elements.len()
                invariant
                    i <= array.elements@.len(),
                    *node == SourceValue::Array(*array),
                    total == parts_len(*node, i as int),
                decreases array.elements@.len() - i,
            {
                let element = &array.elements[i];
                proof {
                    assert(decreases_to!(*node => (*node)->Array_0));
                    assert(decreases_to!(*array => array.elements));
                    assert(decreases_to!(array.elements => array.elements@));
                    assert(decreases_to!(array.elements@ => array.elements@[i as int]));
                    assert(decreases_to!(array.elements@[i as int] => array.elements@[i as int].node));
                }
                total = total.saturating_add(slen(&element.leading));
                total = total.saturating_add(node_len(&element.node));
                total = total.saturating_add(slen(&element.trailing));
                total = total.saturating_add(opt_len(&element.comma));
                i = i + 1;
            }
            total.saturating_add(slen(&array.close))
        },
        SourceValue::InlineTable(table) => {
            let mut total = slen(&table.open);
            let mut i: usize = 0;
            while i < table.entries.len()
                invariant
                    i <= table.entries@.len(),
                    *node == SourceValue::InlineTable(*table),
                    total == parts_len(*node, i as int),
                decreases table.entries@.len() - i,
            {
                let entry = &table.entries[i];
                proof {
                    assert(decreases_to!(*node => (*node)->InlineTable_0));
                    assert(decreases_to!(*table => table.entries));
                    assert(decreases_to!(table.entries => table.entries@));
                    assert(decreases_to!(table.entries@ => table.entries@[i as int]));
                    assert(decreases_to!(table.entries@[i as int] => table.entries@[i as int].node));
                }
                total = total.saturating_add(slen(&entry.leading));
                total = total.saturating_add(slen(&entry.raw_key));
                total = total.saturating_add(slen(&entry.pre_eq));
                total = total.saturating_add(1);
                total = total.saturating_add(slen(&entry.post_eq));
                total = total.saturating_add(node_len(&entry.node));
                total = total.saturating_add(slen(&entry.trailing));
                total = total.saturating_add(opt_len(&entry.comma));
                i = i + 1;
            }
            total.saturating_add(slen(&table.close))
        },
    }
}

/// Where the number of the quantity `q` authored at `range` ends.
fn value_number_end_exec(range: ByteRange, q: &QuantityValue) -> (r: usize)
    requires
        range.start <= range.end,
    ensures
        r == value_number_end(range, *q),
{
    let authored_len = range.end - range.start;
    let sep_len: usize = if q.separator.is_some() { 1 } else { 0 };
    let super_len: usize = opt_len(&q.super_unit);
    let number_len = authored_len.saturating_sub(slen(&q.unit)).saturating_sub(sep_len).saturating_sub(super_len);
    range.start + number_len
}

/// `path` with one more segment.
fn extended(path: &[String], segment: String) -> (r: Vec<String>)
    ensures
        r@ == path@.push(segment),
{
    let mut r = clone_path(path);
    r.push(segment);
    r
}

fn clone_magnitude(m: &QuantityMagnitude) -> (r: QuantityMagnitude)
    ensures
        r == *m,
{
    match m {
        QuantityMagnitude::Integer(n) => QuantityMagnitude::Integer(*n),
        QuantityMagnitude::Float(text) => QuantityMagnitude::Float(text.clone()),
    }
}

fn clone_opt_string(s: &Option<String>) -> (r: Option<String>)
    ensures
        r == *s,
{
    match s {
        Some(t) => Some(t.clone()),
        None => None,
    }
}

/// The last segment of a path, or the empty name.
fn last_segment(path: &Vec<String>) -> (r: String)
    ensures
        r@ == if path@.len() > 0 {
            path@.last()@
        } else {
            Seq::<char>::empty()
        },
{
    if path.len() > 0 {
        path[path.len() - 1].clone()
    } else {
        String::new()
    }
}

/// What a builder has collected: definitions, references, quantities and
/// inheritance edges, and where its cursor stands.
pub type Collected = (Seq<DefView>, Seq<RefView>, Seq<QuantView>, Seq<EdgeView>, int);

spec fn state_of<'a>(b: Builder<'a>) -> Collected {
    (
        defs_view(b.index.definitions@),
        refs_view(b.index.references@),
        quants_view(b.index.quantities@),
        edges_view(b.index.inheritance@),
        b.cursor as int,
    )
}

/// What a `key = value` entry of the full path `path` adds to `st`, when its
/// key is found at or after the cursor: the tables its dotted key implies,
/// its own definition (an enum where the document's value there is an enum
/// definition), the enum's members, and the references and quantities in its
/// value; the cursor moves past the value.
pub open spec fn entry_step(
    src: Seq<u8>,
    root: Seq<TableEntry>,
    entry: SourceEntry,
    path: Seq<String>,
    st: Collected,
) -> Collected {
    match spec_locate(src, st.4, bytes_of(entry.raw_key)) {
        None => st,
        Some(key) => {
            let p = pv(path);
            let value_start = sat_add(
                sat_add(sat_add(key.end as int, bytes_of(entry.pre_eq).len() as int), 1),
                bytes_of(entry.post_eq).len() as int,
            );
            let value_end = sat_add(value_start, spec_node_len(entry.node));
            let value = spec_value_at_path(root, path);
            let kind = match value {
                Some(SemanticValue::EnumDefinition(_)) => DefinitionKind::Enum,
                _ => DefinitionKind::Key,
            };
            let vt = match value {
                Some(v) => spec_value_type(v),
                None => ValueType::Unknown,
            };
            let defs = implicit_tables(src, key, p, st.0).push(
                (p, kind, vt, ByteRange { start: key.start, end: value_end as usize }, key),
            );
            let members = match value {
                Some(SemanticValue::EnumDefinition(choices)) => enum_member_defs(
                    src,
                    p,
                    choices@,
                    entry.node,
                    value_start,
                ),
                _ => Seq::empty(),
            };
            let items = node_items(src, p, entry.node, value_start);
            (
                defs + members,
                st.1 + items.0,
                st.2 + items.1,
                st.3,
                if value_end > key.end { value_end } else { key.end as int },
            )
        },
    }
}

/// What one source item adds to `st`: an entry as `entry_step` says; a
/// section header, when found at or after the cursor, its table's definition
/// (named by the header's name) and an edge to each parent it lists, the
/// cursor moving past the header.
pub open spec fn item_step(src: Seq<u8>, root: Seq<TableEntry>, item: SourceItem, st: Collected) -> Collected {
    match item {
        SourceItem::Entry { node, path } => entry_step(src, root, node, path@, st),
        SourceItem::Section(section) => match spec_locate(src, st.4, bytes_of(section.raw)) {
            None => st,
            Some(header) => {
                let kind = if section.is_array {
                    DefinitionKind::ArrayOfTables
                } else {
                    DefinitionKind::Table
                };
                let name = spec_header_name(src, header);
                let ranges = spec_parent_names(src, header, section.parents@.len() as int);
                (
                    st.0.push((pv(section.path@), kind, ValueType::Table, name, name)),
                    st.1,
                    st.2,
                    st.3 + Seq::new(
                        section.parents@.len(),
                        |q: int| (pv(section.path@), pv(section.parents@[q]@), ranges[q]),
                    ),
                    header.end as int,
                )
            },
        },
        SourceItem::Eof => st,
    }
}

/// `st` after the first `n` items.
pub open spec fn items_step(src: Seq<u8>, root: Seq<TableEntry>, items: Seq<SourceItem>, st: Collected, n: int) -> Collected
    decreases n,
{
    if n <= 0 {
        st
    } else {
        item_step(src, root, items[n - 1], items_step(src, root, items, st, n - 1))
    }
}

/// What a document parsed from `src` yields, item after item, from nothing
/// collected and the cursor at the start.
pub open spec fn collected(src: Seq<u8>, doc: DocModel) -> Collected {
    items_step(
        src,
        doc.1,
        doc.0,
        (Seq::empty(), Seq::empty(), Seq::empty(), Seq::empty(), 0),
        doc.0.len() as int,
    )
}

impl<'a> Builder<'a> {
    /// Finds `needle` at or after the cursor and moves the cursor past it.
    fn locate(&mut self, needle: &String) -> (r: Option<ByteRange>)
        ensures
            final(self).source == old(self).source,
            final(self).document == old(self).document,
            final(self).index == old(self).index,
            r == spec_locate(old(self).source.spec_bytes(), old(self).cursor as int, bytes_of(*needle)),
            match r {
                Some(range) => located(final(self).source.spec_bytes(), range) && range.end == final(self).cursor,
                None => final(self).cursor == old(self).cursor,
            },
    {
        let src = self.source;
        let bytes = src.as_bytes();
        proof {
            lemma_view_from_bytes(src);
        }
        if self.cursor > bytes.len() || !src.is_char_boundary(self.cursor) {
            return None;
        }
        let pat = string_bytes(needle);
        proof {
            lemma_first_match(bytes@, self.cursor as int, pat@);
        }
        match find_in(bytes, self.cursor, bytes.len(), pat) {
            Some(start) => {
                let end = start + pat.len();
                proof {
                    lemma_first_match_unique(bytes@, self.cursor as int, pat@, start as int);
                    assert(matches_within(bytes@, self.cursor as int, bytes@.len() as int, start as int, pat@));
                    assert(bytes@.subrange(start as int, end as int) =~= pat@);
                    if pat@.len() == 0 {
                        assert(matches_within(bytes@, self.cursor as int, bytes@.len() as int, self.cursor as int, pat@));
                    }
                    lemma_match_boundaries(bytes@, start as int, pat@, needle@, self.cursor as int);
                }
                self.cursor = end;
                Some(ByteRange { start, end })
            },
            None => {
                proof {
                    if let Some(i) = first_match(bytes@, self.cursor as int, pat@) {
                        assert(matches_within(bytes@, self.cursor as int, bytes@.len() as int, i, pat@));
                    }
                }
                None
            },
        }
    }

    fn add_definition(
        &mut self,
        path: Vec<String>,
        kind: DefinitionKind,
        value_type: ValueType,
        range: ByteRange,
        selection_range: ByteRange,
    ) -> (id: DefinitionId)
        requires
            collecting(old(self).source.spec_bytes(), old(self).index),
            located(old(self).source.spec_bytes(), selection_range),
            kind != DefinitionKind::EnumMember ==> range.start == selection_range.start,
        ensures
            final(self).source == old(self).source,
            final(self).document == old(self).document,
            final(self).cursor == old(self).cursor,
            collecting(final(self).source.spec_bytes(), final(self).index),
            final(self).index.definitions@.len() == old(self).index.definitions@.len() + 1,
            defs_view(final(self).index.definitions@) == defs_view(old(self).index.definitions@).push(
                (pv(path@), kind, value_type, range, selection_range),
            ),
            final(self).index.references == old(self).index.references,
            final(self).index.quantities == old(self).index.quantities,
            final(self).index.inheritance == old(self).index.inheritance,
            final(self).index.cycles == old(self).index.cycles,
    {
        let id = DefinitionId(self.index.definitions.len());
        let name = last_segment(&path);
        let ghost before = self.index.definitions@;
        let ghost new_view = (pv(path@), kind, value_type, range, selection_range);
        self.index.definitions.push(Definition { id, name, path, kind, value_type, range, selection_range });
        proof {
            lemma_map_push(before, self.index.definitions@.last(), |d: Definition| def_view(d));
            assert(self.index.definitions@ =~= before.push(self.index.definitions@.last()));
            assert(def_view(self.index.definitions@.last()) == new_view);
            let defs = self.index.definitions@;
            assert forall|i: int| 0 <= i < defs.len() implies (#[trigger] defs[i]).id.0 == i by {
                if i < before.len() {
                    assert(defs[i] == before[i]);
                }
            }
            assert forall|i: int| 0 <= i < defs.len() implies name_matches_path(#[trigger] defs[i]) by {
                if i < before.len() {
                    assert(defs[i] == before[i]);
                }
            }
            assert forall|i: int| 0 <= i < defs.len() implies located(
                self.source.spec_bytes(), (#[trigger] defs[i]).selection_range) by {
                if i < before.len() {
                    assert(defs[i] == before[i]);
                }
            }
            assert forall|i: int|
                0 <= i < defs.len() && (#[trigger] defs[i]).kind != DefinitionKind::EnumMember implies
                defs[i].range.start == defs[i].selection_range.start by {
                if i < before.len() {
                    assert(defs[i] == before[i]);
                }
            }
        }
        id
    }

    fn push_reference(&mut self, reference: Reference)
        requires
            collecting(old(self).source.spec_bytes(), old(self).index),
            reference.target is None,
            reference.kind != ReferenceKind::Inheritance,
            located(old(self).source.spec_bytes(), reference.range),
            reference.kind == ReferenceKind::Path ==> spec_is_path_reference_target(reference.target_path@)
                && target_written(old(self).source.spec_bytes(), reference),
            reference.kind == ReferenceKind::EnumMember ==> reference.target_path@.len() >= 1,
        ensures
            final(self).source == old(self).source,
            final(self).document == old(self).document,
            final(self).cursor == old(self).cursor,
            collecting(final(self).source.spec_bytes(), final(self).index),
            final(self).index.references@ == old(self).index.references@.push(reference),
            refs_view(final(self).index.references@) == refs_view(old(self).index.references@).push(ref_view(reference)),
            final(self).index.definitions == old(self).index.definitions,
            final(self).index.quantities == old(self).index.quantities,
            final(self).index.inheritance == old(self).index.inheritance,
            final(self).index.cycles == old(self).index.cycles,
    {
        let ghost before = self.index.references@;
        let ghost pushed = reference;
        self.index.references.push(reference);
        proof {
            lemma_map_push(before, pushed, |r: Reference| ref_view(r));
            let refs = self.index.references@;
            assert forall|i: int| 0 <= i < refs.len() implies (#[trigger] refs[i]).target is None by {
                if i < before.len() {
                    assert(refs[i] == before[i]);
                }
            }
            assert forall|i: int| 0 <= i < refs.len() implies {
                let r = #[trigger] refs[i];
                &&& r.kind != ReferenceKind::Inheritance
                &&& located(self.source.spec_bytes(), r.range)
                &&& r.kind == ReferenceKind::Path ==> spec_is_path_reference_target(r.target_path@) && target_written(
                    self.source.spec_bytes(),
                    r,
                )
                &&& r.kind == ReferenceKind::EnumMember ==> r.target_path@.len() >= 1
            } by {
                if i < before.len() {
                    assert(refs[i] == before[i]);
                }
            }
        }
    }

    fn push_edge(&mut self, edge: InheritanceEdge)
        requires
            collecting(old(self).source.spec_bytes(), old(self).index),
            located(old(self).source.spec_bytes(), edge.range),
        ensures
            final(self).source == old(self).source,
            final(self).document == old(self).document,
            final(self).cursor == old(self).cursor,
            collecting(final(self).source.spec_bytes(), final(self).index),
            edges_view(final(self).index.inheritance@) == edges_view(old(self).index.inheritance@).push(edge_view(edge)),
            final(self).index.definitions == old(self).index.definitions,
            final(self).index.references == old(self).index.references,
            final(self).index.quantities == old(self).index.quantities,
            final(self).index.cycles == old(self).index.cycles,
    {
        let ghost before = self.index.inheritance@;
        let ghost pushed = edge;
        self.index.inheritance.push(edge);
        proof {
            lemma_map_push(before, pushed, |e: InheritanceEdge| edge_view(e));
            let es = self.index.inheritance@;
            assert forall|i: int| 0 <= i < es.len() implies located(self.source.spec_bytes(), (#[trigger] es[i]).range) by {
                if i < before.len() {
                    assert(es[i] == before[i]);
                }
            }
        }
    }

    fn add_quantity(&mut self, path: &[String], range: ByteRange, quantity: &QuantityValue)
        requires
            collecting(old(self).source.spec_bytes(), old(self).index),
            located(old(self).source.spec_bytes(), range),
            is_char_boundary(old(self).source.spec_bytes(), value_number_end(range, *quantity)),
        ensures
            final(self).source == old(self).source,
            final(self).document == old(self).document,
            final(self).cursor == old(self).cursor,
            collecting(final(self).source.spec_bytes(), final(self).index),
            final(self).index.quantities@.len() == old(self).index.quantities@.len() + 1,
            final(self).index.quantities@.drop_last() == old(self).index.quantities@,
            quantity_is(final(self).index.quantities@.last(), path@, range, *quantity),
            quants_view(final(self).index.quantities@) == quants_view(old(self).index.quantities@).push(
                quant_of(pv(path@), range, *quantity),
            ),
            final(self).index.definitions == old(self).index.definitions,
            final(self).index.references == old(self).index.references,
            final(self).index.inheritance == old(self).index.inheritance,
            final(self).index.cycles == old(self).index.cycles,
    {
        let ghost before = self.index.quantities@;
        self.index.quantities.push(QuantityOccurrence {
            path: clone_path(path),
            range,
            magnitude: clone_magnitude(&quantity.magnitude),
            unit: quantity.unit.clone(),
            separator: quantity.separator,
            super_unit: clone_opt_string(&quantity.super_unit),
        });
        assert(self.index.quantities@.drop_last() =~= before);
        proof {
            lemma_map_push(before, self.index.quantities@.last(), |q: QuantityOccurrence| quant_view(q));
            assert(self.index.quantities@ =~= before.push(self.index.quantities@.last()));
            let qs = self.index.quantities@;
            assert forall|i: int| 0 <= i < qs.len() implies quantity_placed(self.source.spec_bytes(), #[trigger] qs[i]) by {
                if i < before.len() {
                    assert(qs[i] == before[i]);
                }
            }
        }
    }

    /// Records the references and quantities inside an authored value that starts at `start`.
    fn collect_node(&mut self, path: &[String], node: &SourceValue, start: usize)
        requires
            collecting(old(self).source.spec_bytes(), old(self).index),
        ensures
            final(self).source == old(self).source,
            final(self).document == old(self).document,
            final(self).cursor == old(self).cursor,
            collecting(final(self).source.spec_bytes(), final(self).index),
            final(self).index.definitions == old(self).index.definitions,
            final(self).index.inheritance == old(self).index.inheritance,
            final(self).index.cycles == old(self).index.cycles,
            refs_view(final(self).index.references@) == refs_view(old(self).index.references@) + node_items(
                old(self).source.spec_bytes(),
                pv(path@),
                *node,
                start as int,
            ).0,
            quants_view(final(self).index.quantities@) == quants_view(old(self).index.quantities@) + node_items(
                old(self).source.spec_bytes(),
                pv(path@),
                *node,
                start as int,
            ).1,
        decreases node,
    {
        let ghost bs = self.source.spec_bytes();
        match node {
            SourceValue::Scalar { raw, value } => {
                let range = ByteRange { start, end: start.saturating_add(opt_len(raw)) };
                let text = match str_get(self.source, range.start, range.end) {
                    Some(authored) => authored,
                    None => {
                        proof {
                            assert(refs_view(self.index.references@) =~= refs_view(old(self).index.references@)
                                + node_items(bs, pv(path@), *node, start as int).0);
                            assert(quants_view(self.index.quantities@) =~= quants_view(old(self).index.quantities@)
                                + node_items(bs, pv(path@), *node, start as int).1);
                        }
                        return;
                    },
                };
                if raw.is_some() {
                    if let Some(target_path) = parse_path_reference(text) {
                        proof {
                            lemma_path_reference_target(text.spec_bytes(), target_path@);
                            let pieces = spec_path_reference(text.spec_bytes())->0;
                            assert forall|k: int| 0 <= k < pieces.len() implies pv(target_path@)[k]
                                == pieces.map_values(|p: Seq<u8>| decode_utf8(p))[k] by {
                                encode_utf8_decode_utf8(target_path@[k]@);
                            }
                            assert(pv(target_path@) =~= pieces.map_values(|p: Seq<u8>| decode_utf8(p)));
                        }
                        let ghost before = self.index.references@;
                        self.push_reference(Reference {
                            kind: ReferenceKind::Path,
                            source_path: clone_path(path),
                            target_path,
                            range,
                            target: None,
                            resolved_target: None,
                        });
                        proof {
                            assert(refs_view(before).push(ref_view(self.index.references@.last())) =~= refs_view(before)
                                + node_items(bs, pv(path@), *node, start as int).0);
                            assert(quants_view(self.index.quantities@) =~= quants_view(old(self).index.quantities@)
                                + node_items(bs, pv(path@), *node, start as int).1);
                        }
                        return;
                    }
                }
                match value {
                    ScalarValue::EnumRef { enum_path, symbol } => {
                        let member = symbol.clone();
                        let ghost member_view = member;
                        let target_path = extended(enum_path.as_slice(), member);
                        proof {
                            lemma_pv_push(enum_path@, member_view);
                        }
                        let ghost before = self.index.references@;
                        self.push_reference(Reference {
                            kind: ReferenceKind::EnumMember,
                            source_path: clone_path(path),
                            target_path,
                            range,
                            target: None,
                            resolved_target: None,
                        });
                        proof {
                            assert(refs_view(before).push(ref_view(self.index.references@.last())) =~= refs_view(before)
                                + node_items(bs, pv(path@), *node, start as int).0);
                            assert(quants_view(self.index.quantities@) =~= quants_view(old(self).index.quantities@)
                                + node_items(bs, pv(path@), *node, start as int).1);
                        }
                    },
                    ScalarValue::Quantity(quantity) => {
                        let number_end = value_number_end_exec(range, quantity);
                        proof {
                            lemma_view_from_bytes(self.source);
                        }
                        if number_end <= self.source.as_bytes().len() && self.source.is_char_boundary(number_end) {
                            self.add_quantity(path, range, quantity);
                            proof {
                                assert(quants_view(old(self).index.quantities@).push(quant_of(pv(path@), range, *quantity))
                                    =~= quants_view(old(self).index.quantities@) + node_items(bs, pv(path@), *node, start as int).1);
                            }
                        } else {
                            proof {
                                assert(quants_view(self.index.quantities@) =~= quants_view(old(self).index.quantities@)
                                    + node_items(bs, pv(path@), *node, start as int).1);
                            }
                        }
                        proof {
                            assert(refs_view(self.index.references@) =~= refs_view(old(self).index.references@)
                                + node_items(bs, pv(path@), *node, start as int).0);
                        }
                    },
                    ScalarValue::Other => {
                        proof {
                            assert(refs_view(self.index.references@) =~= refs_view(old(self).index.references@)
                                + node_items(bs, pv(path@), *node, start as int).0);
                            assert(quants_view(self.index.quantities@) =~= quants_view(old(self).index.quantities@)
                                + node_items(bs, pv(path@), *node, start as int).1);
                        }
                    },
                }
            },
            SourceValue::Array(array) => {
                let mut offset = start.saturating_add(slen(&array.open));
                let mut i: usize = 0;
                proof {
                    assert(refs_view(self.index.references@) =~= refs_view(old(self).index.references@)
                        + parts_items(bs, pv(path@), *node, start as int, 0).0);
                    assert(quants_view(self.index.quantities@) =~= quants_view(old(self).index.quantities@)
                        + parts_items(bs, pv(path@), *node, start as int, 0).1);
                }
                while i < array.elements.len()
                    invariant
                        i <= array.elements@.len(),
                        *node == SourceValue::Array(*array),
                        self.source == old(self).source,
                        self.document == old(self).document,
                        self.cursor == old(self).cursor,
                        bs == old(self).source.spec_bytes(),
                        collecting(self.source.spec_bytes(), self.index),
                        self.index.definitions == old(self).index.definitions,
                        self.index.inheritance == old(self).index.inheritance,
                        self.index.cycles == old(self).index.cycles,
                        offset == parts_items(bs, pv(path@), *node, start as int, i as int).2,
                        refs_view(self.index.references@) == refs_view(old(self).index.references@)
                            + parts_items(bs, pv(path@), *node, start as int, i as int).0,
                        quants_view(self.index.quantities@) == quants_view(old(self).index.quantities@)
                            + parts_items(bs, pv(path@), *node, start as int, i as int).1,
                    decreases array.elements@.len() - i,
                {
                    let element = &array.elements[i];
                    proof {
                        assert(decreases_to!(*node => (*node)->Array_0));
                        assert(decreases_to!(*array => array.elements));
                        assert(decreases_to!(array.elements => array.elements@));
                        assert(decreases_to!(array.elements@ => array.elements@[i as int]));
                        assert(decreases_to!(array.elements@[i as int] => array.elements@[i as int].node));
                    }
                    offset = offset.saturating_add(slen(&element.leading));
                    let segment = decimal_string(i as u64);
                    let ghost seg = segment;
                    proof {
                        encode_utf8_decode_utf8(seg@);
                        lemma_pv_push(path@, seg);
                    }
                    let element_path = extended(path, segment);
                    self.collect_node(element_path.as_slice(), &element.node, offset);
                    offset = offset.saturating_add(node_len(&element.node));
                    offset = offset.saturating_add(slen(&element.trailing));
                    offset = offset.saturating_add(opt_len(&element.comma));
                    proof {
                        let prev = parts_items(bs, pv(path@), *node, start as int, i as int);
                        let inner = node_items(
                            bs,
                            pv(path@).push(decode_utf8(decimal_bytes(i as nat))),
                            element.node,
                            sat_add(prev.2, bytes_of(element.leading).len() as int),
                        );
                        assert(refs_view(old(self).index.references@) + prev.0 + inner.0 =~= refs_view(
                            old(self).index.references@,
                        ) + (prev.0 + inner.0));
                        assert(quants_view(old(self).index.quantities@) + prev.1 + inner.1 =~= quants_view(
                            old(self).index.quantities@,
                        ) + (prev.1 + inner.1));
                    }
                    i = i + 1;
                }
            },
            SourceValue::InlineTable(table) => {
                let mut offset = start.saturating_add(slen(&table.open));
                let mut i: usize = 0;
                proof {
                    assert(refs_view(self.index.references@) =~= refs_view(old(self).index.references@)
                        + parts_items(bs, pv(path@), *node, start as int, 0).0);
                    assert(quants_view(self.index.quantities@) =~= quants_view(old(self).index.quantities@)
                        + parts_items(bs, pv(path@), *node, start as int, 0).1);
                }
                while i < table.entries.len()
                    invariant
                        i <= table.entries@.len(),
                        *node == SourceValue::InlineTable(*table),
                        self.source == old(self).source,
                        self.document == old(self).document,
                        self.cursor == old(self).cursor,
                        bs == old(self).source.spec_bytes(),
                        collecting(self.source.spec_bytes(), self.index),
                        self.index.definitions == old(self).index.definitions,
                        self.index.inheritance == old(self).index.inheritance,
                        self.index.cycles == old(self).index.cycles,
                        offset == parts_items(bs, pv(path@), *node, start as int, i as int).2,
                        refs_view(self.index.references@) == refs_view(old(self).index.references@)
                            + parts_items(bs, pv(path@), *node, start as int, i as int).0,
                        quants_view(self.index.quantities@) == quants_view(old(self).index.quantities@)
                            + parts_items(bs, pv(path@), *node, start as int, i as int).1,
                    decreases table.entries@.len() - i,
                {
                    let entry = &table.entries[i];
                    proof {
                        assert(decreases_to!(*node => (*node)->InlineTable_0));
                        assert(decreases_to!(*table => table.entries));
                        assert(decreases_to!(table.entries => table.entries@));
                        assert(decreases_to!(table.entries@ => table.entries@[i as int]));
                        assert(decreases_to!(table.entries@[i as int] => table.entries@[i as int].node));
                    }
                    offset = offset.saturating_add(slen(&entry.leading));
                    offset = offset.saturating_add(slen(&entry.raw_key));
                    offset = offset.saturating_add(slen(&entry.pre_eq));
                    offset = offset.saturating_add(1);
                    offset = offset.saturating_add(slen(&entry.post_eq));
                    let key = trimmed(&entry.raw_key);
                    let ghost seg = key;
                    proof {
                        encode_utf8_decode_utf8(seg@);
                        lemma_pv_push(path@, seg);
                    }
                    let entry_path = extended(path, key);
                    self.collect_node(entry_path.as_slice(), &entry.node, offset);
                    offset = offset.saturating_add(node_len(&entry.node));
                    offset = offset.saturating_add(slen(&entry.trailing));
                    offset = offset.saturating_add(opt_len(&entry.comma));
                    proof {
                        let prev = parts_items(bs, pv(path@), *node, start as int, i as int);
                        let at = sat_add(
                            sat_add(
                                sat_add(
                                    sat_add(sat_add(prev.2, bytes_of(entry.leading).len() as int), bytes_of(entry.raw_key).len() as int),
                                    bytes_of(entry.pre_eq).len() as int,
                                ),
                                1,
                            ),
                            bytes_of(entry.post_eq).len() as int,
                        );
                        let inner = node_items(
                            bs,
                            pv(path@).push(decode_utf8(trimmed_bytes(bytes_of(entry.raw_key)))),
                            entry.node,
                            at,
                        );
                        assert(refs_view(old(self).index.references@) + prev.0 + inner.0 =~= refs_view(
                            old(self).index.references@,
                        ) + (prev.0 + inner.0));
                        assert(quants_view(old(self).index.quantities@) + prev.1 + inner.1 =~= quants_view(
                            old(self).index.quantities@,
                        ) + (prev.1 + inner.1));
                    }
                    i = i + 1;
                }
            },
            SourceValue::EnumSymbol { .. } => {
                proof {
                    assert(refs_view(self.index.references@) =~= refs_view(old(self).index.references@)
                        + node_items(bs, pv(path@), *node, start as int).0);
                    assert(quants_view(self.index.quantities@) =~= quants_view(old(self).index.quantities@)
                        + node_items(bs, pv(path@), *node, start as int).1);
                }
            },
        }
    }

    /// Records one member definition per choice of an enum declared by an array.
    fn collect_enum_members(
        &mut self,
        enum_path: &[String],
        choices: &Vec<SemanticChoice>,
        node: &SourceValue,
        start: usize,
    )
        requires
            collecting(old(self).source.spec_bytes(), old(self).index),
        ensures
            final(self).source == old(self).source,
            final(self).document == old(self).document,
            final(self).cursor == old(self).cursor,
            collecting(final(self).source.spec_bytes(), final(self).index),
            defs_view(final(self).index.definitions@) == defs_view(old(self).index.definitions@) + enum_member_defs(
                old(self).source.spec_bytes(),
                pv(enum_path@),
                choices@,
                *node,
                start as int,
            ),
            final(self).index.references == old(self).index.references,
            final(self).index.quantities == old(self).index.quantities,
            final(self).index.inheritance == old(self).index.inheritance,
            final(self).index.cycles == old(self).index.cycles,
    {
        let ghost bs = self.source.spec_bytes();
        let array = match node {
            SourceValue::Array(array) => array,
            _ => {
                proof {
                    assert(defs_view(self.index.definitions@) =~= defs_view(old(self).index.definitions@)
                        + enum_member_defs(bs, pv(enum_path@), choices@, *node, start as int));
                }
                return;
            },
        };
        let mut offset = start.saturating_add(slen(&array.open));
        let mut i: usize = 0;
        proof {
            assert(defs_view(self.index.definitions@) =~= defs_view(old(self).index.definitions@) + member_defs(
                bs,
                pv(enum_path@),
                choices@,
                *array,
                start as int,
                0,
            ).0);
        }
        while i < choices.len() && i < array.elements.len()
            invariant
                i <= choices@.len(),
                i <= array.elements@.len(),
                *node == SourceValue::Array(*array),
                bs == old(self).source.spec_bytes(),
                self.source == old(self).source,
                self.document == old(self).document,
                self.cursor == old(self).cursor,
                collecting(self.source.spec_bytes(), self.index),
                self.index.references == old(self).index.references,
                self.index.quantities == old(self).index.quantities,
                self.index.inheritance == old(self).index.inheritance,
                self.index.cycles == old(self).index.cycles,
                offset == member_defs(bs, pv(enum_path@), choices@, *array, start as int, i as int).1,
                defs_view(self.index.definitions@) == defs_view(old(self).index.definitions@) + member_defs(
                    bs,
                    pv(enum_path@),
                    choices@,
                    *array,
                    start as int,
                    i as int,
                ).0,
            decreases choices@.len() - i,
        {
            let element = &array.elements[i];
            offset = offset.saturating_add(slen(&element.leading));
            let len = node_len(&element.node);
            let range = ByteRange { start: offset, end: offset.saturating_add(len) };
            match str_get(self.source, range.start, range.end) {
                Some(text) => {
                    let (name, choice_type) = match &choices[i] {
                        SemanticChoice::Symbol(symbol) => (symbol.clone(), ValueType::EnumReference),
                        SemanticChoice::Value(value) => (trimmed_str(text), value_type(value)),
                    };
                    proof {
                        encode_utf8_decode_utf8(name@);
                    }
                    let ghost member = name;
                    let path = extended(enum_path, name);
                    proof {
                        lemma_pv_push(enum_path@, member);
                    }
                    self.add_definition(path, DefinitionKind::EnumMember, choice_type, range, range);
                    proof {
                        let prev = member_defs(bs, pv(enum_path@), choices@, *array, start as int, i as int);
                        let step = member_defs(bs, pv(enum_path@), choices@, *array, start as int, i + 1);
                        assert(step.0 == prev.0.push((pv(enum_path@).push(member@), DefinitionKind::EnumMember, choice_type, range, range)));
                        assert(defs_view(old(self).index.definitions@) + prev.0.push(
                            (pv(enum_path@).push(member@), DefinitionKind::EnumMember, choice_type, range, range),
                        ) =~= (defs_view(old(self).index.definitions@) + prev.0).push(
                            (pv(enum_path@).push(member@), DefinitionKind::EnumMember, choice_type, range, range),
                        ));
                    }
                },
                None => {},
            }
            offset = offset.saturating_add(len);
            offset = offset.saturating_add(slen(&element.trailing));
            offset = offset.saturating_add(opt_len(&element.comma));
            i = i + 1;
        }
    }

    /// A dotted key `a.b.c = ...` also defines the tables `a` and `a.b` that
    /// no definition names yet; each is named by its part of the key.
    fn add_implicit_tables(&mut self, path: &Vec<String>, key: ByteRange)
        requires
            collecting(old(self).source.spec_bytes(), old(self).index),
            located(old(self).source.spec_bytes(), key),
        ensures
            final(self).source == old(self).source,
            final(self).document == old(self).document,
            final(self).cursor == old(self).cursor,
            collecting(final(self).source.spec_bytes(), final(self).index),
            defs_view(final(self).index.definitions@) == implicit_tables(
                old(self).source.spec_bytes(),
                key,
                pv(path@),
                defs_view(old(self).index.definitions@),
            ),
            final(self).index.references == old(self).index.references,
            final(self).index.quantities == old(self).index.quantities,
            final(self).index.inheritance == old(self).index.inheritance,
            final(self).index.cycles == old(self).index.cycles,
    {
        let b = self.source.as_bytes();
        let ghost bs = b@;
        proof {
            lemma_view_from_bytes(self.source);
        }
        let mut dots: usize = 0;
        let mut k = key.start;
        while k < key.end
            invariant
                key.start <= k <= key.end <= bs.len(),
                b@ == bs,
                bs == old(self).source.spec_bytes(),
                dots <= k - key.start,
                dots == dot_count(bs, key.start as int, k as int),
                forall|j: int| key.start <= j < k ==> !is_quote(#[trigger] bs[j]),
                self.source == old(self).source,
                self.document == old(self).document,
                self.cursor == old(self).cursor,
                self.index == old(self).index,
                collecting(self.source.spec_bytes(), self.index),
            decreases key.end - k,
        {
            if b[k] == 34 || b[k] == 39 {
                proof {
                    assert(is_quote(bs[k as int]));
                }
                return;
            }
            if b[k] == 46 {
                dots = dots + 1;
            }
            k = k + 1;
        }
        if dots == 0 || dots >= path.len() {
            return;
        }
        let plen = path.len();
        let base = plen - dots - 1;
        let mut segment: usize = 1;
        let mut position = key.start;
        while segment <= dots
            invariant
                self.source.spec_bytes() == bs,
                b@ == bs,
                bs == old(self).source.spec_bytes(),
                valid_utf8(bs),
                located(bs, key),
                key.start <= position <= key.end,
                1 <= segment <= dots + 1,
                base + dots + 1 == plen,
                plen == path@.len(),
                self.source == old(self).source,
                self.document == old(self).document,
                self.cursor == old(self).cursor,
                collecting(bs, self.index),
                self.index.references == old(self).index.references,
                self.index.quantities == old(self).index.quantities,
                self.index.inheritance == old(self).index.inheritance,
                self.index.cycles == old(self).index.cycles,
                implicit_steps(bs, key, pv(path@), base as int, dots as int, defs_view(self.index.definitions@), position as int, segment as int)
                    == implicit_tables(bs, key, pv(path@), defs_view(old(self).index.definitions@)),
            decreases dots + 1 - segment,
        {
            proof {
                lemma_first_byte_in(bs, position as int, key.end as int, 46);
            }
            let dot = match find_byte(b, position, key.end, 46) {
                Some(d) => d,
                None => return,
            };
            proof {
                lemma_ascii_boundaries(bs, dot as int);
                is_char_boundary_start_end_of_seq(bs);
                assert(first_byte_in(bs, position as int, key.end as int, 46) == Some(dot as int));
            }
            let end = trim_end_to(b, key.start, dot);
            proof {
                lemma_trim_end_boundary(bs, key.start as int, dot as int);
            }
            let prefix = crate::paths::path_prefix(path.as_slice(), base + segment);
            proof {
                assert(pv(prefix@) =~= pv(path@).subrange(0, (base + segment) as int));
                lemma_last_with_path(self.index.definitions@, pv(prefix@), self.index.definitions@.len() as int);
            }
            let ghost defs_before = defs_view(self.index.definitions@);
            if lookup(&self.index.definitions, prefix.as_slice()).is_none() {
                proof {
                    if defined(defs_before, pv(prefix@)) {
                        let j = choose|j: int| 0 <= j < defs_before.len() && (#[trigger] defs_before[j]).0 == pv(prefix@);
                        assert(pv(self.index.definitions@[j].path@) == pv(prefix@));
                    }
                }
                let name = ByteRange { start: key.start, end };
                self.add_definition(prefix, DefinitionKind::Table, ValueType::Table, name, name);
            } else {
                proof {
                    let i = last_with_path(self.index.definitions@, pv(prefix@), self.index.definitions@.len() as int)->0;
                    assert(defs_before[i].0 == pv(prefix@));
                }
            }
            position = dot + 1;
            segment = segment + 1;
        }
    }

    fn collect_entry(&mut self, node: &SourceEntry, path: &Vec<String>)
        requires
            collecting(old(self).source.spec_bytes(), old(self).index),
        ensures
            final(self).source == old(self).source,
            final(self).document == old(self).document,
            collecting(final(self).source.spec_bytes(), final(self).index),
            final(self).index.cycles == old(self).index.cycles,
            state_of(*final(self)) == entry_step(
                old(self).source.spec_bytes(),
                old(self).document.root@,
                *node,
                path@,
                state_of(*old(self)),
            ),
    {
        let key_range = match self.locate(&node.raw_key) {
            Some(range) => range,
            None => return,
        };
        self.add_implicit_tables(path, key_range);
        let value_start = key_range.end.saturating_add(slen(&node.pre_eq)).saturating_add(1).saturating_add(
            slen(&node.post_eq),
        );
        let value_end = value_start.saturating_add(node_len(&node.node));
        let document = self.document;
        let semantic_value = value_at_path(&document.root, path.as_slice());
        let (kind, vtype) = match semantic_value {
            Some(SemanticValue::EnumDefinition(_)) => (DefinitionKind::Enum, ValueType::EnumDefinition),
            Some(value) => (DefinitionKind::Key, value_type(value)),
            None => (DefinitionKind::Key, ValueType::Unknown),
        };
        self.add_definition(
            clone_path(path.as_slice()),
            kind,
            vtype,
            ByteRange { start: key_range.start, end: value_end },
            key_range,
        );
        if let Some(SemanticValue::EnumDefinition(choices)) = semantic_value {
            self.collect_enum_members(path.as_slice(), choices, &node.node, value_start);
        }
        self.collect_node(path.as_slice(), &node.node, value_start);
        if value_end > self.cursor {
            self.cursor = value_end;
        }
    }

    fn collect(&mut self)
        requires
            collecting(old(self).source.spec_bytes(), old(self).index),
        ensures
            final(self).source == old(self).source,
            final(self).document == old(self).document,
            collecting(final(self).source.spec_bytes(), final(self).index),
            final(self).index.cycles == old(self).index.cycles,
            state_of(*final(self)) == items_step(
                old(self).source.spec_bytes(),
                old(self).document.root@,
                old(self).document.items@,
                state_of(*old(self)),
                old(self).document.items@.len() as int,
            ),
    {
        let ghost bs = self.source.spec_bytes();
        let document = self.document;
        let mut i: usize = 0;
        while i < document.items.len()
            invariant
                i <= document.items@.len(),
                self.source == old(self).source,
                self.document == document,
                document == old(self).document,
                bs == old(self).source.spec_bytes(),
                collecting(self.source.spec_bytes(), self.index),
                self.index.cycles == old(self).index.cycles,
                state_of(*self) == items_step(bs, document.root@, document.items@, state_of(*old(self)), i as int),
            decreases document.items@.len() - i,
        {
            match &document.items[i] {
                SourceItem::Entry { node, path } => self.collect_entry(node, path),
                SourceItem::Section(section) => {
                    if let Some(header) = self.locate(&section.raw) {
                        let kind = if section.is_array {
                            DefinitionKind::ArrayOfTables
                        } else {
                            DefinitionKind::Table
                        };
                        let name = header_name_range(self.source, header);
                        self.add_definition(clone_path(section.path.as_slice()), kind, ValueType::Table, name, name);
                        let parent_ranges = parent_name_ranges(self.source, header, section.parents.len());
                        let ghost edges_before = edges_view(self.index.inheritance@);
                        let ghost defs_at = self.index.definitions@;
                        let ghost refs_at = self.index.references@;
                        let ghost quants_at = self.index.quantities@;
                        let mut p: usize = 0;
                        while p < section.parents.len()
                            invariant
                                p <= section.parents@.len(),
                                parent_ranges@.len() == section.parents@.len(),
                                parent_ranges@ == spec_parent_names(bs, header, section.parents@.len() as int),
                                forall|k: int| 0 <= k < parent_ranges@.len() ==> located(bs, #[trigger] parent_ranges@[k]),
                                self.source == old(self).source,
                                self.document == document,
                                bs == old(self).source.spec_bytes(),
                                collecting(self.source.spec_bytes(), self.index),
                                self.index.cycles == old(self).index.cycles,
                                self.cursor == header.end,
                                self.index.definitions@ == defs_at,
                                self.index.references@ == refs_at,
                                self.index.quantities@ == quants_at,
                                edges_view(self.index.inheritance@) == edges_before + Seq::new(
                                    p as nat,
                                    |q: int| (pv(section.path@), pv(section.parents@[q]@), parent_ranges@[q]),
                                ),
                            decreases section.parents@.len() - p,
                        {
                            let ghost edges_now = self.index.inheritance@;
                            proof {
                                assert(located(bs, parent_ranges@[p as int]));
                            }
                            self.push_edge(InheritanceEdge {
                                child_path: clone_path(section.path.as_slice()),
                                parent_path: clone_path(section.parents[p].as_slice()),
                                range: parent_ranges[p],
                                parent: None,
                            });
                            proof {
                                assert(edges_view(self.index.inheritance@) =~= edges_before + Seq::new(
                                    (p + 1) as nat,
                                    |q: int| (pv(section.path@), pv(section.parents@[q]@), parent_ranges@[q]),
                                ));
                            }
                            p = p + 1;
                        }
                    }
                },
                SourceItem::Eof => {},
            }
            i = i + 1;
        }
    }
}

/// Position of the last path reference whose source is `p`, among the first `n`.
pub open spec fn last_path_ref(refs: Seq<Reference>, p: Seq<Seq<char>>, n: int) -> Option<int>
    decreases n,
{
    if n <= 0 {
        None
    } else if refs[n - 1].kind == ReferenceKind::Path && pv(refs[n - 1].source_path@) == p {
        Some(n - 1)
    } else {
        last_path_ref(refs, p, n - 1)
    }
}

/// The target the key `p` refers to, when `p` holds a path reference (the last one wins).
pub open spec fn path_next(refs: Seq<Reference>, p: Seq<Seq<char>>) -> Option<Seq<Seq<char>>> {
    match last_path_ref(refs, p, refs.len() as int) {
        Some(i) => Some(pv(refs[i].target_path@)),
        None => None,
    }
}

/// `w` follows path references link by link and visits no key twice.
pub open spec fn is_resolution_walk(refs: Seq<Reference>, w: Seq<Seq<Seq<char>>>) -> bool {
    &&& w.len() >= 1
    &&& forall|k: int| 0 <= k < w.len() - 1 ==> path_next(refs, #[trigger] w[k]) == Some(w[k + 1])
    &&& forall|k: int, l: int| 0 <= k < l < w.len() ==> w[k] != w[l]
}

/// Following path references from `start` ends at `end`: where the chain
/// stops, or at the first key it would visit a second time.
pub open spec fn resolves_to(refs: Seq<Reference>, start: Seq<Seq<char>>, end: Seq<Seq<char>>) -> bool {
    exists|w: Seq<Seq<Seq<char>>>|
        {
            &&& is_resolution_walk(refs, w)
            &&& w[0] == start
            &&& match path_next(refs, w.last()) {
                None => end == w.last(),
                Some(q) => w.contains(q) && end == q,
            }
        }
}

/// `a -> b` is a path-reference edge: key `a` holds a reference to `b`.
pub open spec fn is_reference_edge(refs: Seq<Reference>, a: Seq<Seq<char>>, b: Seq<Seq<char>>) -> bool {
    exists|i: int|
        0 <= i < refs.len() && (#[trigger] refs[i]).kind == ReferenceKind::Path && pv(refs[i].source_path@)
            == a && pv(refs[i].target_path@) == b
}

/// `a -> b` is an inheritance edge: table `a` names `b` as a parent.
pub open spec fn is_inheritance_edge(edges: Seq<InheritanceEdge>, a: Seq<Seq<char>>, b: Seq<Seq<char>>) -> bool {
    exists|i: int| 0 <= i < edges.len() && pv((#[trigger] edges[i]).child_path@) == a && pv(edges[i].parent_path@) == b
}

/// `w` leads from a path back to it along path-reference edges.
pub open spec fn closed_reference_walk(refs: Seq<Reference>, w: Seq<Seq<Seq<char>>>) -> bool {
    &&& w.len() >= 2
    &&& w[0] == w.last()
    &&& forall|k: int| 0 <= k < w.len() - 1 ==> is_reference_edge(refs, #[trigger] w[k], w[k + 1])
}

/// `w` leads from a table back to it along inheritance edges.
pub open spec fn closed_inheritance_walk(edges: Seq<InheritanceEdge>, w: Seq<Seq<Seq<char>>>) -> bool {
    &&& w.len() >= 2
    &&& w[0] == w.last()
    &&& forall|k: int| 0 <= k < w.len() - 1 ==> is_inheritance_edge(edges, #[trigger] w[k], w[k + 1])
}

/// Some reported cycle of `kind` passes one of the paths of `w`.
pub open spec fn walk_reported(index: SemanticIndex, kind: CycleKind, w: Seq<Seq<Seq<char>>>) -> bool {
    exists|c: int, k: int|
        0 <= c < index.cycles@.len() && index.cycles@[c].kind == kind && 0 <= k < w.len()
            && #[trigger] cycle_paths(index.cycles@[c]).contains(w[k])
}

/// Each kind of cycle is complete on its own: every walk along path
/// references that comes back to where it started passes a path of some
/// reported path-reference cycle, and every such walk along inheritance edges
/// passes a table of some reported inheritance cycle. So several separate
/// cycles are each reported, and where none of a kind is reported there is no
/// such walk.
pub open spec fn cycles_complete(index: SemanticIndex) -> bool {
    &&& forall|w: Seq<Seq<Seq<char>>>| #[trigger] closed_reference_walk(index.references@, w)
        ==> walk_reported(index, CycleKind::PathReference, w)
    &&& forall|w: Seq<Seq<Seq<char>>>| #[trigger] closed_inheritance_walk(index.inheritance@, w)
        ==> walk_reported(index, CycleKind::Inheritance, w)
}

/// Every cycle is a closed walk over the edges of its kind that passes each
/// table once, and no two cycles of one kind pass the same tables.
pub open spec fn cycles_sound(index: SemanticIndex) -> bool {
    &&& forall|c: int, d: int|
        0 <= c < d < index.cycles@.len() && (#[trigger] index.cycles@[c]).kind == (#[trigger] index.cycles@[d]).kind
            ==> !same_nodes(cycle_paths(index.cycles@[c]), cycle_paths(index.cycles@[d]))
    &&& forall|c: int|
        0 <= c < index.cycles@.len() ==> {
            let paths = cycle_paths(#[trigger] index.cycles@[c]);
            &&& paths.len() >= 2
            &&& paths[0] == paths.last()
            &&& is_simple(paths)
            &&& forall|k: int|
                0 <= k < paths.len() - 1 ==> match index.cycles@[c].kind {
                    CycleKind::PathReference => is_reference_edge(index.references@, #[trigger] paths[k], paths[k + 1]),
                    CycleKind::Inheritance => is_inheritance_edge(index.inheritance@, #[trigger] paths[k], paths[k + 1]),
                }
        }
}

/// What resolution establishes: each reference's target is the definition of
/// its target path, a path reference's resolved target is the definition at
/// the end of its chain, other references resolve to their target, and each
/// inheritance edge's parent is the definition of the parent path.
pub open spec fn resolved(index: SemanticIndex) -> bool {
    let defs = index.definitions@;
    let refs = index.references@;
    &&& forall|i: int|
        0 <= i < refs.len() ==> (#[trigger] refs[i]).target == id_for_path(defs, pv(refs[i].target_path@))
    &&& forall|i: int|
        0 <= i < refs.len() && (#[trigger] refs[i]).kind != ReferenceKind::Path ==> refs[i].resolved_target
            == refs[i].target
    &&& forall|i: int|
        0 <= i < refs.len() && (#[trigger] refs[i]).kind == ReferenceKind::Path ==> exists|end: Seq<Seq<char>>|
            resolves_to(refs, pv(refs[i].target_path@), end) && refs[i].resolved_target == id_for_path(defs, end)
    &&& forall|i: int|
        0 <= i < index.inheritance@.len() ==> (#[trigger] index.inheritance@[i]).parent == id_for_path(
            defs,
            pv(index.inheritance@[i].parent_path@),
        )
}

/// The id of the last definition of `path`.
fn lookup(defs: &Vec<Definition>, path: &[String]) -> (r: Option<DefinitionId>)
    ensures
        r == id_for_path(defs@, pv(path@)),
{
    let mut i = defs.len();
    while i > 0
        invariant
            i <= defs@.len(),
            forall|j: int| i <= j < defs@.len() ==> pv(#[trigger] defs@[j].path@) != pv(path@),
            last_with_path(defs@, pv(path@), defs@.len() as int) == last_with_path(defs@, pv(path@), i as int),
        decreases i,
    {
        if path_eq(defs[i - 1].path.as_slice(), path) {
            return Some(defs[i - 1].id);
        }
        i = i - 1;
        proof {
            assert(last_with_path(defs@, pv(path@), i + 1) == last_with_path(defs@, pv(path@), i as int));
        }
    }
    None
}

/// The last path reference whose source is `p`.
fn find_path_ref(refs: &Vec<Reference>, p: &[String]) -> (r: Option<usize>)
    ensures
        match r {
            Some(j) => last_path_ref(refs@, pv(p@), refs@.len() as int) == Some(j as int) && j < refs@.len(),
            None => last_path_ref(refs@, pv(p@), refs@.len() as int) is None,
        },
{
    let mut i = refs.len();
    while i > 0
        invariant
            i <= refs@.len(),
            last_path_ref(refs@, pv(p@), refs@.len() as int) == last_path_ref(refs@, pv(p@), i as int),
        decreases i,
    {
        if refs[i - 1].kind == ReferenceKind::Path && path_eq(refs[i - 1].source_path.as_slice(), p) {
            return Some(i - 1);
        }
        i = i - 1;
    }
    None
}

/// Follows path references from `start` to the end of the chain.
fn resolve_chain(refs: &Vec<Reference>, start: &Vec<String>) -> (r: Vec<String>)
    ensures
        resolves_to(refs@, pv(start@), pv(r@)),
{
    let ghost universe = refs@.map_values(|x: Reference| pv(x.target_path@)).to_set().insert(pv(start@));
    proof {
        vstd::seq_lib::seq_to_set_is_finite(refs@.map_values(|x: Reference| pv(x.target_path@)));
    }
    let mut current = clone_path(start.as_slice());
    let mut visited: Vec<Vec<String>> = Vec::new();
    let ghost mut w: Seq<Seq<Seq<char>>> = Seq::empty();
    loop
        invariant
            universe.finite(),
            universe == refs@.map_values(|x: Reference| pv(x.target_path@)).to_set().insert(pv(start@)),
            universe.contains(pv(current@)),
            visited@.len() == w.len(),
            forall|k: int| 0 <= k < w.len() ==> pv(#[trigger] visited@[k]@) == w[k],
            forall|k: int| 0 <= k < w.len() ==> universe.contains(#[trigger] w[k]),
            w.len() == 0 ==> pv(current@) == pv(start@),
            w.len() > 0 ==> w[0] == pv(start@) && path_next(refs@, w.last()) == Some(pv(current@)),
            forall|k: int| 0 <= k < w.len() - 1 ==> path_next(refs@, #[trigger] w[k]) == Some(w[k + 1]),
            forall|k: int, l: int| 0 <= k < l < w.len() ==> w[k] != w[l],
        decreases universe.difference(w.to_set()).len(),
    {
        if crate::paths::paths_contain(&visited, current.as_slice()) {
            proof {
                let k = choose|k: int| 0 <= k < visited@.len() && #[trigger] pv(visited@[k]@) == pv(current@);
                assert(w[k] == pv(current@));
                assert(w.contains(pv(current@)));
                assert(is_resolution_walk(refs@, w));
            }
            return current;
        }
        let ghost w0 = w;
        visited.push(clone_path(current.as_slice()));
        proof {
            assert(!w0.contains(pv(current@))) by {
                if w0.contains(pv(current@)) {
                    let k = choose|k: int| 0 <= k < w0.len() && w0[k] == pv(current@);
                    assert(pv(visited@[k]@) == pv(current@));
                }
            }
            w = w.push(pv(current@));
            w0.lemma_push_to_set_commute(pv(current@));
            universe.lemma_set_insert_diff_decreases(w0.to_set(), pv(current@));
        }
        match find_path_ref(refs, current.as_slice()) {
            None => {
                proof {
                    assert(is_resolution_walk(refs@, w));
                }
                return current;
            },
            Some(j) => {
                let next = clone_path(refs[j].target_path.as_slice());
                proof {
                    assert(refs@.map_values(|x: Reference| pv(x.target_path@))[j as int] == pv(next@));
                }
                current = next;
            },
        }
    }
}

/// References that agree on kinds and paths link the same way.
proof fn lemma_same_links(a: Seq<Reference>, b: Seq<Reference>, p: Seq<Seq<char>>, n: int)
    requires
        a.len() == b.len(),
        0 <= n <= a.len(),
        forall|i: int|
            0 <= i < a.len() ==> (#[trigger] a[i]).kind == b[i].kind && a[i].source_path@ == b[i].source_path@
                && a[i].target_path@ == b[i].target_path@,
    ensures
        last_path_ref(a, p, n) == last_path_ref(b, p, n),
    decreases n,
{
    if n > 0 {
        lemma_same_links(a, b, p, n - 1);
    }
}

proof fn lemma_same_resolution(a: Seq<Reference>, b: Seq<Reference>, start: Seq<Seq<char>>, end: Seq<Seq<char>>)
    requires
        a.len() == b.len(),
        forall|i: int|
            0 <= i < a.len() ==> (#[trigger] a[i]).kind == b[i].kind && a[i].source_path@ == b[i].source_path@
                && a[i].target_path@ == b[i].target_path@,
        resolves_to(a, start, end),
    ensures
        resolves_to(b, start, end),
{
    assert forall|p: Seq<Seq<char>>| path_next(a, p) == path_next(b, p) by {
        lemma_same_links(a, b, p, a.len() as int);
        match last_path_ref(a, p, a.len() as int) {
            Some(i) => {
                lemma_last_path_ref_range(a, p, a.len() as int);
                assert(a[i].target_path@ == b[i].target_path@);
            },
            None => {},
        }
    }
    let w = choose|w: Seq<Seq<Seq<char>>>|
        {
            &&& is_resolution_walk(a, w)
            &&& w[0] == start
            &&& match path_next(a, w.last()) {
                None => end == w.last(),
                Some(q) => w.contains(q) && end == q,
            }
        };
    assert(is_resolution_walk(b, w));
}

proof fn lemma_last_path_ref_range(refs: Seq<Reference>, p: Seq<Seq<char>>, n: int)
    requires
        0 <= n <= refs.len(),
    ensures
        last_path_ref(refs, p, n) matches Some(i) ==> 0 <= i < n,
    decreases n,
{
    if n > 0 {
        lemma_last_path_ref_range(refs, p, n - 1);
    }
}

/// Resolves references and inheritance parents, then finds the cycles.
#[verifier::spinoff_prover]
fn finish(index: SemanticIndex, Ghost(src): Ghost<Seq<u8>>) -> (r: SemanticIndex)
    requires
        collecting(src, index),
    ensures
        index_shape(src, r),
        resolved(r),
        cycles_sound(r),
        cycles_complete(r),
        r.definitions == index.definitions,
        r.quantities == index.quantities,
        r.references@.len() == index.references@.len(),
        forall|i: int|
            0 <= i < r.references@.len() ==> (#[trigger] r.references@[i]).kind == index.references@[i].kind
                && r.references@[i].source_path@ == index.references@[i].source_path@
                && r.references@[i].target_path@ == index.references@[i].target_path@
                && r.references@[i].range == index.references@[i].range,
        r.inheritance@.len() == index.inheritance@.len(),
        forall|i: int|
            0 <= i < r.inheritance@.len() ==> (#[trigger] r.inheritance@[i]).child_path@
                == index.inheritance@[i].child_path@ && r.inheritance@[i].parent_path@
                == index.inheritance@[i].parent_path@ && r.inheritance@[i].range == index.inheritance@[i].range,
{
    let SemanticIndex { definitions, references, quantities, inheritance, cycles: _ } = index;
    let mut refs: Vec<Reference> = Vec::new();
    let mut i: usize = 0;
    while i < references.len()
        invariant
            i <= references@.len(),
            refs@.len() == i,
            forall|k: int|
                0 <= k < i ==> (#[trigger] refs@[k]).kind == references@[k].kind && refs@[k].source_path@
                    == references@[k].source_path@ && refs@[k].target_path@ == references@[k].target_path@
                    && refs@[k].range == references@[k].range && refs@[k].target == id_for_path(
                    definitions@,
                    pv(references@[k].target_path@),
                ) && (refs@[k].kind != ReferenceKind::Path ==> refs@[k].resolved_target == refs@[k].target)
                    && (refs@[k].kind == ReferenceKind::Path ==> exists|end: Seq<Seq<char>>|
                    resolves_to(references@, pv(refs@[k].target_path@), end) && refs@[k].resolved_target
                        == id_for_path(definitions@, end)),
        decreases references@.len() - i,
    {
        let r = &references[i];
        let target = lookup(&definitions, r.target_path.as_slice());
        let resolved_target = if r.kind != ReferenceKind::Path {
            target
        } else {
            let end = resolve_chain(&references, &r.target_path);
            lookup(&definitions, end.as_slice())
        };
        refs.push(Reference {
            kind: r.kind,
            source_path: clone_path(r.source_path.as_slice()),
            target_path: clone_path(r.target_path.as_slice()),
            range: r.range,
            target,
            resolved_target,
        });
        i = i + 1;
    }
    proof {
        assert forall|k: int|
            0 <= k < refs@.len() && (#[trigger] refs@[k]).kind == ReferenceKind::Path implies exists|end: Seq<Seq<char>>|
            resolves_to(refs@, pv(refs@[k].target_path@), end) && refs@[k].resolved_target == id_for_path(
                definitions@,
                end,
            ) by {
            let end = choose|end: Seq<Seq<char>>|
                resolves_to(references@, pv(refs@[k].target_path@), end) && refs@[k].resolved_target
                    == id_for_path(definitions@, end);
            lemma_same_resolution(references@, refs@, pv(refs@[k].target_path@), end);
        }
    }
    let mut edges: Vec<InheritanceEdge> = Vec::new();
    let mut e: usize = 0;
    while e < inheritance.len()
        invariant
            e <= inheritance@.len(),
            edges@.len() == e,
            forall|k: int|
                0 <= k < e ==> (#[trigger] edges@[k]).child_path@ == inheritance@[k].child_path@
                    && edges@[k].parent_path@ == inheritance@[k].parent_path@ && edges@[k].range
                    == inheritance@[k].range && edges@[k].parent == id_for_path(
                    definitions@,
                    pv(inheritance@[k].parent_path@),
                ),
        decreases inheritance@.len() - e,
    {
        let edge = &inheritance[e];
        edges.push(InheritanceEdge {
            child_path: clone_path(edge.child_path.as_slice()),
            parent_path: clone_path(edge.parent_path.as_slice()),
            range: edge.range,
            parent: lookup(&definitions, edge.parent_path.as_slice()),
        });
        e = e + 1;
    }
    // Graph edges of each kind.
    let mut path_edges: Vec<(Vec<String>, Vec<String>)> = Vec::new();
    let mut k: usize = 0;
    while k < refs.len()
        invariant
            k <= refs@.len(),
            forall|q: int|
                0 <= q < path_edges@.len() ==> is_reference_edge(refs@, pv((#[trigger] path_edges@[q]).0@), pv(path_edges@[q].1@)),
            forall|q: int|
                0 <= q < k && (#[trigger] refs@[q]).kind == ReferenceKind::Path ==> is_edge(
                    path_edges@,
                    pv(refs@[q].source_path@),
                    pv(refs@[q].target_path@),
                ),
        decreases refs@.len() - k,
    {
        let ghost before = path_edges@;
        if refs[k].kind == ReferenceKind::Path {
            path_edges.push((clone_path(refs[k].source_path.as_slice()), clone_path(refs[k].target_path.as_slice())));
            proof {
                assert(is_reference_edge(refs@, pv(refs@[k as int].source_path@), pv(refs@[k as int].target_path@)));
                let last = path_edges@.len() - 1;
                assert(pv(path_edges@[last].0@) == pv(refs@[k as int].source_path@));
            }
        }
        proof {
            assert forall|q: int| 0 <= q < k + 1 && (#[trigger] refs@[q]).kind == ReferenceKind::Path implies is_edge(
                path_edges@,
                pv(refs@[q].source_path@),
                pv(refs@[q].target_path@),
            ) by {
                if q < k {
                    let i = choose|i: int| 0 <= i < before.len() && pv(#[trigger] before[i].0@) == pv(refs@[q].source_path@)
                        && pv(before[i].1@) == pv(refs@[q].target_path@);
                    assert(path_edges@[i] == before[i]);
                } else {
                    let last = path_edges@.len() - 1;
                    assert(pv(path_edges@[last].0@) == pv(refs@[q].source_path@));
                }
            }
        }
        k = k + 1;
    }
    let mut parent_edges: Vec<(Vec<String>, Vec<String>)> = Vec::new();
    let mut k: usize = 0;
    while k < edges.len()
        invariant
            k <= edges@.len(),
            forall|q: int|
                0 <= q < parent_edges@.len() ==> is_inheritance_edge(edges@, pv((#[trigger] parent_edges@[q]).0@), pv(parent_edges@[q].1@)),
            parent_edges@.len() == k,
            forall|q: int|
                0 <= q < k ==> pv((#[trigger] parent_edges@[q]).0@) == pv(edges@[q].child_path@) && pv(parent_edges@[q].1@)
                    == pv(edges@[q].parent_path@),
        decreases edges@.len() - k,
    {
        parent_edges.push((clone_path(edges[k].child_path.as_slice()), clone_path(edges[k].parent_path.as_slice())));
        proof {
            assert(is_inheritance_edge(edges@, pv(edges@[k as int].child_path@), pv(edges@[k as int].parent_path@)));
        }
        k = k + 1;
    }
    let mut cycles = detect_cycles(CycleKind::PathReference, path_edges.as_slice());
    let mut more = detect_cycles(CycleKind::Inheritance, parent_edges.as_slice());
    let ghost c1 = cycles@;
    let ghost c2 = more@;
    cycles.append(&mut more);
    let r = SemanticIndex { definitions, references: refs, quantities, inheritance: edges, cycles };
    proof {
        assert forall|w: Seq<Seq<Seq<char>>>| #[trigger] closed_reference_walk(r.references@, w)
            implies walk_reported(r, CycleKind::PathReference, w) by {
            assert forall|q: int| 0 <= q < w.len() - 1 implies is_edge(path_edges@, #[trigger] w[q], w[q + 1]) by {
                assert(is_reference_edge(r.references@, w[q], w[q + 1]));
                let i = choose|i: int|
                    0 <= i < r.references@.len() && (#[trigger] r.references@[i]).kind == ReferenceKind::Path
                        && pv(r.references@[i].source_path@) == w[q] && pv(r.references@[i].target_path@) == w[q + 1];
                assert(r.references@[i].kind == ReferenceKind::Path);
            }
            assert(is_closed_walk(path_edges@, w));
            let (c, k) = choose|c: int, k: int|
                0 <= c < c1.len() && 0 <= k < w.len() && #[trigger] cycle_paths(c1[c]).contains(w[k]);
            assert(r.cycles@[c] == c1[c]);
            assert(cycle_paths(r.cycles@[c]).contains(w[k]));
        }
        assert forall|w: Seq<Seq<Seq<char>>>| #[trigger] closed_inheritance_walk(r.inheritance@, w)
            implies walk_reported(r, CycleKind::Inheritance, w) by {
            assert forall|q: int| 0 <= q < w.len() - 1 implies is_edge(parent_edges@, #[trigger] w[q], w[q + 1]) by {
                assert(is_inheritance_edge(r.inheritance@, w[q], w[q + 1]));
                let i = choose|i: int|
                    0 <= i < r.inheritance@.len() && pv((#[trigger] r.inheritance@[i]).child_path@) == w[q] && pv(
                        r.inheritance@[i].parent_path@,
                    ) == w[q + 1];
                assert(pv(parent_edges@[i].0@) == w[q]);
            }
            assert(is_closed_walk(parent_edges@, w));
            let (c, k) = choose|c: int, k: int|
                0 <= c < c2.len() && 0 <= k < w.len() && #[trigger] cycle_paths(c2[c]).contains(w[k]);
            assert(r.cycles@[c1.len() + c] == c2[c]);
            assert(cycle_paths(r.cycles@[c1.len() + c]).contains(w[k]));
        }
    }
    proof {
        assert forall|c: int, d: int|
            0 <= c < d < r.cycles@.len() && (#[trigger] r.cycles@[c]).kind == (#[trigger] r.cycles@[d]).kind implies !same_nodes(
            cycle_paths(r.cycles@[c]),
            cycle_paths(r.cycles@[d]),
        ) by {
            if d < c1.len() {
                assert(r.cycles@[c] == c1[c] && r.cycles@[d] == c1[d]);
            } else if c >= c1.len() {
                assert(r.cycles@[c] == c2[c - c1.len()] && r.cycles@[d] == c2[d - c1.len()]);
            } else {
                assert(r.cycles@[c] == c1[c] && r.cycles@[d] == c2[d - c1.len()]);
            }
        }
        assert forall|c: int| 0 <= c < r.cycles@.len() implies {
            let paths = cycle_paths(#[trigger] r.cycles@[c]);
            &&& paths.len() >= 2
            &&& paths[0] == paths.last()
            &&& is_simple(paths)
            &&& forall|q: int|
                0 <= q < paths.len() - 1 ==> match r.cycles@[c].kind {
                    CycleKind::PathReference => is_reference_edge(r.references@, #[trigger] paths[q], paths[q + 1]),
                    CycleKind::Inheritance => is_inheritance_edge(r.inheritance@, #[trigger] paths[q], paths[q + 1]),
                }
        } by {
            let paths = cycle_paths(r.cycles@[c]);
            if c < c1.len() {
                assert(r.cycles@[c] == c1[c]);
                assert(is_closed_walk(path_edges@, paths));
                assert forall|q: int| 0 <= q < paths.len() - 1 implies is_reference_edge(r.references@, #[trigger] paths[q], paths[q + 1]) by {
                    assert(is_edge(path_edges@, paths[q], paths[q + 1]));
                }
            } else {
                assert(r.cycles@[c] == c2[c - c1.len()]);
                assert(is_closed_walk(parent_edges@, paths));
                assert forall|q: int| 0 <= q < paths.len() - 1 implies is_inheritance_edge(r.inheritance@, #[trigger] paths[q], paths[q + 1]) by {
                    assert(is_edge(parent_edges@, paths[q], paths[q + 1]));
                }
            }
        }
    }
    r
}

impl SemanticIndex {
    /// Builds the index of a parsed document; `source` is the text it was parsed from.
    pub fn build(source: &str, document: &AtmlDocument) -> (r: SemanticIndex)
        ensures
            index_shape(source.spec_bytes(), r),
            resolved(r),
            cycles_sound(r),
            cycles_complete(r),
            defs_view(r.definitions@) == collected(source.spec_bytes(), model_of(*document)).0,
            refs_view(r.references@) == collected(source.spec_bytes(), model_of(*document)).1,
            quants_view(r.quantities@) == collected(source.spec_bytes(), model_of(*document)).2,
            edges_view(r.inheritance@) == collected(source.spec_bytes(), model_of(*document)).3,
    {
        let mut builder = Builder { source, document, index: SemanticIndex::default(), cursor: 0 };
        proof {
            assert(state_of(builder) =~= (Seq::empty(), Seq::empty(), Seq::empty(), Seq::empty(), 0int));
        }
        builder.collect();
        let ghost collected_index = builder.index;
        let r = finish(builder.index, Ghost(source.spec_bytes()));
        proof {
            assert(refs_view(r.references@) =~= refs_view(collected_index.references@));
            assert(edges_view(r.inheritance@) =~= edges_view(collected_index.inheritance@));
        }
        r
    }
}

/// An occurrence of a complete text at a character boundary ends at a character boundary.
proof fn lemma_match_end_boundary(s: Seq<u8>, start: int, chars: Seq<char>)
    requires
        valid_utf8(s),
        is_char_boundary(s, start),
        0 <= start,
        start + encode_utf8(chars).len() <= s.len(),
        s.subrange(start, start + encode_utf8(chars).len()) == encode_utf8(chars),
    ensures
        is_char_boundary(s, start + encode_utf8(chars).len()),
    decreases chars.len(),
{
    if chars.len() > 0 {
        let e = encode_utf8(chars);
        let head = encode_scalar(chars[0] as u32);
        let rest = chars.drop_first();
        encode_utf8_first_scalar(chars);
        assert(e == head + encode_utf8(rest));
        let tail = s.subrange(start, s.len() as int);
        assert(tail[0] == e[0]);
        crate::text::lemma_boundary_after_char(s, start);
        assert(length_of_first_scalar(tail) == length_of_first_scalar(e));
        let w = head.len() as int;
        assert(s.subrange(start + w, start + w + encode_utf8(rest).len()) =~= encode_utf8(rest)) by {
            assert forall|k: int| 0 <= k < encode_utf8(rest).len() implies s[start + w + k] == encode_utf8(rest)[k] by {
                assert(s.subrange(start, start + e.len())[w + k] == e[w + k]);
            }
        }
        lemma_match_end_boundary(s, start + w, rest);
    }
}

/// An occurrence of a complete text, found at or after a boundary, starts and ends on boundaries.
proof fn lemma_match_boundaries(s: Seq<u8>, start: int, pat: Seq<u8>, pat_chars: Seq<char>, from: int)
    requires
        valid_utf8(s),
        pat == encode_utf8(pat_chars),
        0 <= from <= start,
        start + pat.len() <= s.len(),
        s.subrange(start, start + pat.len()) == pat,
        is_char_boundary(s, from),
        pat.len() == 0 ==> start == from,
    ensures
        is_char_boundary(s, start),
        is_char_boundary(s, start + pat.len()),
{
    if pat.len() > 0 {
        assert(pat_chars.len() > 0);
        encode_utf8_first_scalar(pat_chars);
        assert(s[start] == pat[0]);
        is_char_boundary_iff_not_is_continuation_byte(s, start);
    }
    lemma_match_end_boundary(s, start, pat_chars);
}

/// The segments of a parsed Bare Path Reference are bare names, two or more.
proof fn lemma_path_reference_target(b: Seq<u8>, segments: Seq<String>)
    requires
        crate::semantic::spec_path_reference(b) matches Some(pieces) && segments.len() == pieces.len()
            && forall|i: int| 0 <= i < segments.len() ==> bytes_of(#[trigger] segments[i]) == pieces[i],
    ensures
        spec_is_path_reference_target(segments),
{
}

/// The bytes of `b` without leading and trailing White_Space.
pub open spec fn trimmed_bytes(b: Seq<u8>) -> Seq<u8> {
    b.subrange(
        crate::text::trim_start_pos(b, 0, b.len() as int),
        crate::text::trim_end_pos(b, crate::text::trim_start_pos(b, 0, b.len() as int), b.len() as int),
    )
}

/// A trimmed copy of a key's authored text.
fn trimmed(s: &String) -> (r: String)
    ensures
        bytes_of(r) == trimmed_bytes(bytes_of(*s)),
{
    trimmed_str(s.as_str())
}

/// `text.trim().to_owned()`.
fn trimmed_str(text: &str) -> (r: String)
    ensures
        bytes_of(r) == text.spec_bytes().subrange(
            crate::text::trim_start_pos(text.spec_bytes(), 0, text.spec_bytes().len() as int),
            crate::text::trim_end_pos(
                text.spec_bytes(),
                crate::text::trim_start_pos(text.spec_bytes(), 0, text.spec_bytes().len() as int),
                text.spec_bytes().len() as int,
            ),
        ),
{
    let b = text.as_bytes();
    proof {
        lemma_view_from_bytes(text);
    }
    let start = trim_start_from(b, 0, b.len());
    let end = trim_end_to(b, start, b.len());
    proof {
        lemma_trim_start_boundary(b@, 0, b@.len() as int);
        lemma_trim_end_boundary(b@, start as int, b@.len() as int);
    }
    owned_substr(text, start, end)
}

/// The first position in `b[from..to]` not holding byte `c`, or `to`.
pub open spec fn skip_byte(b: Seq<u8>, from: int, to: int, c: u8) -> int
    decreases to - from,
{
    if from < to && b[from] == c {
        skip_byte(b, from + 1, to, c)
    } else {
        from
    }
}

/// The first `:` or `]` in `b[from..to]`, or `to`.
pub open spec fn name_stop(b: Seq<u8>, from: int, to: int) -> int
    decreases to - from,
{
    if from < to && b[from] != 58 && b[from] != 93 {
        name_stop(b, from + 1, to)
    } else {
        from
    }
}

/// The table name of a header: after its opening brackets, up to `:` or
/// `]`, without surrounding White_Space.
pub open spec fn spec_header_name(b: Seq<u8>, header: ByteRange) -> ByteRange {
    let s = skip_byte(b, header.start as int, header.end as int, 91);
    let start = trim_start_pos(b, s, header.end as int);
    let e = name_stop(b, start, header.end as int);
    ByteRange { start: start as usize, end: trim_end_pos(b, start, e) as usize }
}

/// The table name inside a located header: after the opening brackets, up to
/// `:` or `]`, without surrounding White_Space.
fn header_name_range(source: &str, header: ByteRange) -> (r: ByteRange)
    requires
        located(source.spec_bytes(), header),
    ensures
        r == spec_header_name(source.spec_bytes(), header),
        located(source.spec_bytes(), r),
        header.start <= r.start <= r.end <= header.end,
{
    let b = source.as_bytes();
    let ghost bs = b@;
    proof {
        lemma_view_from_bytes(source);
    }
    let mut s = header.start;
    while s < header.end && b[s] == 91
        invariant
            header.start <= s <= header.end <= bs.len(),
            b@ == bs,
            s == header.start || bs[s - 1] == 91,
            skip_byte(bs, header.start as int, header.end as int, 91) == skip_byte(bs, s as int, header.end as int, 91),
        decreases header.end - s,
    {
        s = s + 1;
    }
    proof {
        if s > header.start {
            lemma_ascii_boundaries(bs, s - 1);
        }
    }
    let start = trim_start_from(b, s, header.end);
    proof {
        lemma_trim_start_boundary(bs, s as int, header.end as int);
    }
    let mut e = start;
    while e < header.end && b[e] != 58 && b[e] != 93
        invariant
            start <= e <= header.end <= bs.len(),
            b@ == bs,
            name_stop(bs, start as int, header.end as int) == name_stop(bs, e as int, header.end as int),
        decreases header.end - e,
    {
        e = e + 1;
    }
    proof {
        if e < header.end {
            lemma_ascii_boundaries(bs, e as int);
        }
    }
    let end = trim_end_to(b, start, e);
    proof {
        lemma_trim_end_boundary(bs, start as int, e as int);
    }
    ByteRange { start, end }
}

/// The names listed in `b[start..close]`, separated by `,`, each without
/// surrounding White_Space.
pub open spec fn names_from(b: Seq<u8>, start: int, close: int) -> Seq<ByteRange>
    decreases close + 1 - start,
{
    if start > close {
        Seq::empty()
    } else {
        let end = match first_byte_in(b, start, close, 44) {
            Some(c) => c,
            None => close,
        };
        proof {
            lemma_first_byte_in_bounds(b, start, close, 44);
        }
        let name_start = trim_start_pos(b, start, end);
        let name = ByteRange { start: name_start as usize, end: trim_end_pos(b, name_start, end) as usize };
        if end >= close {
            seq![name]
        } else {
            seq![name] + names_from(b, end + 1, close)
        }
    }
}

/// The ranges of the `count` parent names of the header at `header`: the
/// names after its first `:`, up to the `]` after it (or the header's end),
/// when there are `count` of them; else the whole header for each.
pub open spec fn spec_parent_names(b: Seq<u8>, header: ByteRange, count: int) -> Seq<ByteRange> {
    let names = match first_byte_in(b, header.start as int, header.end as int, 58) {
        Some(colon) => {
            let close = match first_byte_in(b, colon, header.end as int, 93) {
                Some(c) => c,
                None => header.end as int,
            };
            names_from(b, colon + 1, close)
        },
        None => Seq::empty(),
    };
    if names.len() == count {
        names
    } else {
        Seq::new(count as nat, |i: int| header)
    }
}

/// `find_byte`'s answer is the first occurrence.
proof fn lemma_found_first(b: Seq<u8>, from: int, to: int, c: u8, r: Option<usize>)
    requires
        0 <= from,
        to <= b.len(),
        match r {
            Some(i) => from <= i < to && b[i as int] == c && forall|j: int| from <= j < i ==> b[j] != c,
            None => forall|j: int| from <= j < to ==> b[j] != c,
        },
    ensures
        first_byte_in(b, from, to, c) == match r {
            Some(i) => Some(i as int),
            None => None::<int>,
        },
{
    lemma_first_byte_in(b, from, to, c);
    match first_byte_in(b, from, to, c) {
        Some(p) => {
            if let Some(i) = r {
                if p < i {
                    assert(b[p] != c);
                } else if i < p {
                    assert(b[i as int] != c);
                }
            } else {
                assert(b[p] != c);
            }
        },
        None => {
            if let Some(i) = r {
                assert(b[i as int] != c);
            }
        },
    }
}

/// The ranges of the `count` parent names after the `:` of a header,
/// separated by `,`, without surrounding White_Space; the whole header for
/// each when the names cannot be told apart.
fn parent_name_ranges(source: &str, header: ByteRange, count: usize) -> (r: Vec<ByteRange>)
    requires
        located(source.spec_bytes(), header),
    ensures
        r@ == spec_parent_names(source.spec_bytes(), header, count as int),
        forall|k: int| 0 <= k < r@.len() ==> located(source.spec_bytes(), #[trigger] r@[k]),
{
    let b = source.as_bytes();
    let ghost bs = b@;
    proof {
        lemma_view_from_bytes(source);
    }
    let mut names: Vec<ByteRange> = Vec::new();
    let found = find_byte(b, header.start, header.end, 58);
    proof {
        lemma_found_first(bs, header.start as int, header.end as int, 58, found);
    }
    match found {
        Some(colon) => {
            let closing = find_byte(b, colon, header.end, 93);
            proof {
                lemma_found_first(bs, colon as int, header.end as int, 93, closing);
            }
            let close = match closing {
                Some(c) => c,
                None => header.end,
            };
            proof {
                lemma_ascii_boundaries(bs, colon as int);
                if let Some(c) = closing {
                    lemma_ascii_boundaries(bs, c as int);
                }
            }
            let mut start = colon + 1;
            loop
                invariant_except_break
                    colon < start <= close,
                    is_char_boundary(bs, start as int),
                    names@ + names_from(bs, start as int, close as int) == names_from(bs, colon + 1, close as int),
                invariant
                    close <= header.end <= bs.len(),
                    b@ == bs,
                    valid_utf8(bs),
                    is_char_boundary(bs, close as int),
                    forall|k: int| 0 <= k < names@.len() ==> located(bs, #[trigger] names@[k]),
                ensures
                    names@ == names_from(bs, colon + 1, close as int),
                    forall|k: int| 0 <= k < names@.len() ==> located(bs, #[trigger] names@[k]),
                decreases close + 1 - start,
            {
                let comma = find_byte(b, start, close, 44);
                proof {
                    lemma_found_first(bs, start as int, close as int, 44, comma);
                }
                let end = match comma {
                    Some(c) => c,
                    None => close,
                };
                let name_start = trim_start_from(b, start, end);
                let name_end = trim_end_to(b, name_start, end);
                proof {
                    if let Some(c) = comma {
                        lemma_ascii_boundaries(bs, c as int);
                    }
                    lemma_trim_start_boundary(bs, start as int, end as int);
                    lemma_trim_end_boundary(bs, name_start as int, end as int);
                    crate::text::lemma_trim_end_bounds(bs, name_start as int, end as int);
                }
                let ghost before = names@;
                names.push(ByteRange { start: name_start, end: name_end });
                proof {
                    assert forall|k: int| 0 <= k < names@.len() implies located(bs, #[trigger] names@[k]) by {
                        if k < before.len() {
                            assert(names@[k] == before[k]);
                        }
                    }
                }
                if end >= close {
                    proof {
                        assert(names@ =~= before + names_from(bs, start as int, close as int));
                    }
                    break;
                }
                proof {
                    assert(before + names_from(bs, start as int, close as int) =~= names@ + names_from(
                        bs,
                        end + 1,
                        close as int,
                    ));
                }
                start = end + 1;
            }
        },
        None => {},
    }
    proof {
        let listed = match first_byte_in(bs, header.start as int, header.end as int, 58) {
            Some(colon) => {
                let close = match first_byte_in(bs, colon, header.end as int, 93) {
                    Some(c) => c,
                    None => header.end as int,
                };
                names_from(bs, colon + 1, close)
            },
            None => Seq::empty(),
        };
        assert(names@ == listed);
    }
    if names.len() == count {
        return names;
    }
    let mut whole: Vec<ByteRange> = Vec::new();
    let mut i: usize = 0;
    while i < count
        invariant
            i <= count,
            located(bs, header),
            whole@ =~= Seq::new(i as nat, |k: int| header),
        decreases count - i,
    {
        whole.push(header);
        i = i + 1;
    }
    whole
}

} // verus!
