//! Hover, go to definition and find references.
use vstd::prelude::*;
use vstd::string::StringSliceAdditionalSpecFns;
use vstd::utf8::*;

use crate::editing::{
    contains, first_definition_at, first_edge_at, first_reference_at, spec_contains,
    strictly_increasing,
};
use crate::paths::{path_starts_with, pv};
use crate::chain::{chain_positions, path_listed, path_set};
use crate::document::{QuantityMagnitude, QuantitySeparator};
use crate::paths::{join, join_spec, path_eq, path_suffix};
use crate::semantic::{
    Definition, DefinitionId, DefinitionKind, QuantityOccurrence, ReferenceKind, SemanticIndex,
};
use crate::text::{
    count_byte, count_byte_exec, decimal_bytes, decimal_string, lemma_ascii_boundaries,
    lemma_trim_end_boundary, lemma_trim_start_boundary, lemma_view_from_bytes, str_get, substr,
    trim_end_pos, trim_end_to, trim_start_from, trim_start_pos,
};
use crate::{last_byte_before, lemma_last_byte_before, ByteRange};
use crate::builder::located;
use crate::editing::{first_byte_in, lemma_first_byte_in};

verus! {

#[derive(Debug, Clone, PartialEq, Eq)]
pub struct HoverResult {
    pub range: ByteRange,
    pub markdown: String,
}

#[derive(Debug, Clone, Copy, PartialEq, Eq, Structural)]
pub struct NavigationTarget {
    pub range: ByteRange,
    pub selection_range: ByteRange,
}

/// The position of the definition `id` names, if any.
pub open spec fn definition_position(index: SemanticIndex, id: Option<DefinitionId>) -> Option<int> {
    match id {
        Some(id) => if id.0 < index.definitions@.len() {
            Some(id.0 as int)
        } else {
            None
        },
        None => None,
    }
}

/// The definition under the cursor: a definition name, else the target of a
/// reference, else the parent of an inheritance edge (its position).
pub open spec fn spec_symbol_definition(index: SemanticIndex, offset: int) -> Option<int> {
    match first_definition_at(index.definitions@, offset, index.definitions@.len() as int) {
        Some(i) => Some(i),
        None => match first_reference_at(index.references@, offset, index.references@.len() as int) {
            Some(j) => definition_position(index, index.references@[j].target),
            None => match first_edge_at(index.inheritance@, offset, index.inheritance@.len() as int) {
                Some(e) => definition_position(index, index.inheritance@[e].parent),
                None => None,
            },
        },
    }
}

fn definition_position_exec(index: &SemanticIndex, id: Option<DefinitionId>) -> (r: Option<usize>)
    ensures
        match r {
            Some(i) => definition_position(*index, id) == Some(i as int) && i < index.definitions@.len(),
            None => definition_position(*index, id) is None,
        },
{
    match id {
        Some(id) => if id.0 < index.definitions.len() {
            Some(id.0)
        } else {
            None
        },
        None => None,
    }
}

/// The position of the definition under the cursor.
fn symbol_definition(index: &SemanticIndex, offset: usize) -> (r: Option<usize>)
    ensures
        match r {
            Some(i) => spec_symbol_definition(*index, offset as int) == Some(i as int) && i < index.definitions@.len(),
            None => spec_symbol_definition(*index, offset as int) is None,
        },
{
    if let Some(i) = crate::editing::first_definition_at_exec(&index.definitions, offset) {
        return Some(i);
    }
    if let Some(j) = crate::editing::first_reference_at_exec(&index.references, offset) {
        return definition_position_exec(index, index.references[j].target);
    }
    match crate::editing::first_edge_at_exec(&index.inheritance, offset) {
        Some(e) => definition_position_exec(index, index.inheritance[e].parent),
        None => None,
    }
}

/// Resolve the authored target under the cursor. For a transitive path
/// reference this intentionally returns the next link, so repeated navigation
/// keeps the chain visible.
pub fn goto_definition(index: &SemanticIndex, offset: usize) -> (r: Option<NavigationTarget>)
    ensures
        match spec_symbol_definition(*index, offset as int) {
            Some(i) => r == Some(
                NavigationTarget {
                    range: index.definitions@[i].range,
                    selection_range: index.definitions@[i].selection_range,
                },
            ),
            None => r is None,
        },
{
    match symbol_definition(index, offset) {
        Some(i) => Some(
            NavigationTarget {
                range: index.definitions[i].range,
                selection_range: index.definitions[i].selection_range,
            },
        ),
        None => None,
    }
}

/// Reference `r` refers to definition `d`: an enum value of an enum, a path
/// into a table, or a reference whose direct or resolved target is `d`.
pub open spec fn refers_to(r: crate::semantic::Reference, d: Definition) -> bool {
    match d.kind {
        DefinitionKind::Enum => r.kind == ReferenceKind::EnumMember && pv(d.path@).is_prefix_of(pv(r.target_path@)),
        DefinitionKind::Table | DefinitionKind::ArrayOfTables => r.kind == ReferenceKind::Path && pv(d.path@).is_prefix_of(
            pv(r.target_path@),
        ),
        _ => r.target == Some(d.id) || r.resolved_target == Some(d.id),
    }
}

/// The ranges that refer to `d`, among the first `n` references.
pub open spec fn referring_ranges(index: SemanticIndex, d: Definition, n: int) -> Seq<ByteRange>
    decreases n,
{
    if n <= 0 {
        Seq::empty()
    } else if refers_to(index.references@[n - 1], d) {
        referring_ranges(index, d, n - 1).push(index.references@[n - 1].range)
    } else {
        referring_ranges(index, d, n - 1)
    }
}

/// The inheritance edges, among the first `n`, whose parent is `d`.
pub open spec fn inheriting_ranges(index: SemanticIndex, d: Definition, n: int) -> Seq<ByteRange>
    decreases n,
{
    if n <= 0 {
        Seq::empty()
    } else if index.inheritance@[n - 1].parent == Some(d.id) {
        inheriting_ranges(index, d, n - 1).push(index.inheritance@[n - 1].range)
    } else {
        inheriting_ranges(index, d, n - 1)
    }
}

/// Everything that refers to `d`: its name when asked for, references, and
/// for a standard table the inheritance edges naming it.
pub open spec fn reference_ranges_of(index: SemanticIndex, d: Definition, include_declaration: bool) -> Seq<ByteRange> {
    (if include_declaration {
        seq![d.selection_range]
    } else {
        Seq::empty()
    }) + referring_ranges(index, d, index.references@.len() as int) + if d.kind == DefinitionKind::Table {
        inheriting_ranges(index, d, index.inheritance@.len() as int)
    } else {
        Seq::empty()
    }
}

fn refers_to_exec(r: &crate::semantic::Reference, d: &Definition) -> (b: bool)
    ensures
        b == refers_to(*r, *d),
{
    match d.kind {
        DefinitionKind::Enum => r.kind == ReferenceKind::EnumMember && path_starts_with(
            r.target_path.as_slice(),
            d.path.as_slice(),
        ),
        DefinitionKind::Table | DefinitionKind::ArrayOfTables => r.kind == ReferenceKind::Path && path_starts_with(
            r.target_path.as_slice(),
            d.path.as_slice(),
        ),
        _ => r.target == Some(d.id) || r.resolved_target == Some(d.id),
    }
}

/// Find references to the definition under the cursor in the current
/// document: each range once, in order.
pub fn find_references(index: &SemanticIndex, offset: usize, include_declaration: bool) -> (r: Vec<ByteRange>)
    ensures
        match spec_symbol_definition(*index, offset as int) {
            Some(i) => strictly_increasing(r@) && r@.to_set() == reference_ranges_of(
                *index,
                index.definitions@[i],
                include_declaration,
            ).to_set(),
            None => r@.len() == 0,
        },
        spec_symbol_definition(*index, offset as int) matches Some(i) ==> found_all(
            *index,
            index.definitions@[i],
            include_declaration,
            r@,
        ),
{
    let i = match symbol_definition(index, offset) {
        Some(i) => i,
        None => return Vec::new(),
    };
    let definition = &index.definitions[i];
    let ghost d = index.definitions@[i as int];
    let mut ranges: Vec<ByteRange> = Vec::new();
    if include_declaration {
        ranges.push(definition.selection_range);
    }
    let ghost head = ranges@;
    let mut j: usize = 0;
    while j < index.references.len()
        invariant
            *definition == d,
            j <= index.references@.len(),
            ranges@ == head + referring_ranges(*index, d, j as int),
        decreases index.references@.len() - j,
    {
        if refers_to_exec(&index.references[j], definition) {
            ranges.push(index.references[j].range);
        }
        j = j + 1;
    }
    let ghost middle = ranges@;
    if definition.kind == DefinitionKind::Table {
        let mut e: usize = 0;
        while e < index.inheritance.len()
            invariant
                *definition == d,
                e <= index.inheritance@.len(),
                ranges@ == middle + inheriting_ranges(*index, d, e as int),
            decreases index.inheritance@.len() - e,
        {
            if index.inheritance[e].parent == Some(definition.id) {
                ranges.push(index.inheritance[e].range);
            }
            e = e + 1;
        }
    }
    proof {
        let all = reference_ranges_of(*index, d, include_declaration);
        if d.kind == DefinitionKind::Table {
            assert(ranges@ =~= all);
        } else {
            assert(ranges@ =~= all);
        }
    }
    let ghost all = ranges@;
    let mut sorted: Vec<ByteRange> = Vec::new();
    let mut k: usize = 0;
    while k < ranges.len()
        invariant
            ranges@ == all,
            k <= all.len(),
            strictly_increasing(sorted@),
            sorted@.to_set() == all.subrange(0, k as int).to_set(),
        decreases all.len() - k,
    {
        crate::editing::add_range(&mut sorted, ranges[k]);
        proof {
            assert(all.subrange(0, k + 1) =~= all.subrange(0, k as int).push(all[k as int]));
            all.subrange(0, k as int).lemma_push_to_set_commute(all[k as int]);
        }
        k = k + 1;
    }
    proof {
        assert(all.subrange(0, all.len() as int) =~= all);
        lemma_reference_ranges_found(*index, d, include_declaration);
        assert forall|x: ByteRange| all.contains(x) implies sorted@.contains(x) by {
            assert(all.to_set().contains(x));
        }
        assert forall|x: ByteRange| sorted@.contains(x) implies all.contains(x) by {
            assert(sorted@.to_set().contains(x));
        }
        lemma_found_all_same(*index, d, include_declaration, all, sorted@);
    }
    sorted
}

/// What find-references finds for definition `d`: the declaration when asked
/// for; for a key or an enum member, every reference whose direct or resolved
/// target is `d`; for a table, every path reference into it and every
/// inheritance edge naming it; for an array of tables, every path reference
/// into it; for an enum, every enum value of it. Nothing else is found but
/// the declaration.
pub open spec fn found_all(index: SemanticIndex, d: Definition, include_declaration: bool, r: Seq<ByteRange>) -> bool {
    let refs = index.references@;
    &&& include_declaration ==> r.contains(d.selection_range)
    &&& (d.kind == DefinitionKind::Key || d.kind == DefinitionKind::EnumMember) ==> forall|k: int|
        0 <= k < refs.len() && ((#[trigger] refs[k]).target == Some(d.id) || refs[k].resolved_target == Some(d.id))
            ==> r.contains(refs[k].range)
    &&& forall|x: ByteRange| #[trigger] r.contains(x) ==> (include_declaration && x == d.selection_range) || found_as(index, d, x)
    &&& (d.kind == DefinitionKind::Table || d.kind == DefinitionKind::ArrayOfTables) ==> forall|k: int|
        0 <= k < refs.len() && (#[trigger] refs[k]).kind == ReferenceKind::Path && pv(d.path@).is_prefix_of(
            pv(refs[k].target_path@),
        ) ==> r.contains(refs[k].range)
    &&& d.kind == DefinitionKind::Table ==> forall|e: int|
        0 <= e < index.inheritance@.len() && (#[trigger] index.inheritance@[e]).parent == Some(d.id) ==> r.contains(
            index.inheritance@[e].range,
        )
    &&& d.kind == DefinitionKind::Enum ==> forall|k: int|
        0 <= k < refs.len() && (#[trigger] refs[k]).kind == ReferenceKind::EnumMember && pv(d.path@).is_prefix_of(
            pv(refs[k].target_path@),
        ) ==> r.contains(refs[k].range)
}

/// Range `x` is a use of `d`: for a key or an enum member, a reference whose
/// direct or resolved target is `d`; for a table, a path reference into it or
/// an inheritance edge naming it; for an array of tables, a path reference
/// into it; for an enum, an enum value of it.
pub open spec fn found_as(index: SemanticIndex, d: Definition, x: ByteRange) -> bool {
    let refs = index.references@;
    match d.kind {
        DefinitionKind::Key | DefinitionKind::EnumMember => exists|k: int|
            0 <= k < refs.len() && ((#[trigger] refs[k]).target == Some(d.id) || refs[k].resolved_target == Some(d.id))
                && refs[k].range == x,
        DefinitionKind::Table => (exists|k: int|
            0 <= k < refs.len() && (#[trigger] refs[k]).kind == ReferenceKind::Path && pv(d.path@).is_prefix_of(
                pv(refs[k].target_path@),
            ) && refs[k].range == x) || exists|e: int|
            0 <= e < index.inheritance@.len() && (#[trigger] index.inheritance@[e]).parent == Some(d.id)
                && index.inheritance@[e].range == x,
        DefinitionKind::ArrayOfTables => exists|k: int|
            0 <= k < refs.len() && (#[trigger] refs[k]).kind == ReferenceKind::Path && pv(d.path@).is_prefix_of(
                pv(refs[k].target_path@),
            ) && refs[k].range == x,
        DefinitionKind::Enum => exists|k: int|
            0 <= k < refs.len() && (#[trigger] refs[k]).kind == ReferenceKind::EnumMember && pv(d.path@).is_prefix_of(
                pv(refs[k].target_path@),
            ) && refs[k].range == x,
    }
}

proof fn lemma_found_all_same(index: SemanticIndex, d: Definition, include_declaration: bool, a: Seq<ByteRange>, b: Seq<ByteRange>)
    requires
        found_all(index, d, include_declaration, a),
        forall|x: ByteRange| a.contains(x) ==> b.contains(x),
        forall|x: ByteRange| b.contains(x) ==> a.contains(x),
    ensures
        found_all(index, d, include_declaration, b),
{
    assert forall|x: ByteRange| #[trigger] b.contains(x) implies (include_declaration && x == d.selection_range)
        || found_as(index, d, x) by {
        assert(a.contains(x));
    }
}

proof fn lemma_referring_ranges(index: SemanticIndex, d: Definition, n: int)
    requires
        0 <= n <= index.references@.len(),
    ensures
        forall|k: int| 0 <= k < n && refers_to(#[trigger] index.references@[k], d) ==> referring_ranges(index, d, n).contains(
            index.references@[k].range,
        ),
        forall|x: ByteRange| #[trigger] referring_ranges(index, d, n).contains(x) ==> exists|k: int|
            0 <= k < n && refers_to(#[trigger] index.references@[k], d) && index.references@[k].range == x,
    decreases n,
{
    if n > 0 {
        lemma_referring_ranges(index, d, n - 1);
        let prev = referring_ranges(index, d, n - 1);
        let cur = referring_ranges(index, d, n);
        assert forall|k: int| 0 <= k < n && refers_to(#[trigger] index.references@[k], d) implies cur.contains(
            index.references@[k].range,
        ) by {
            if k < n - 1 {
                let j = choose|j: int| 0 <= j < prev.len() && prev[j] == index.references@[k].range;
                if refers_to(index.references@[n - 1], d) {
                    assert(cur[j] == prev[j]);
                }
            } else {
                assert(cur[cur.len() - 1] == index.references@[k].range);
            }
        }
        assert forall|x: ByteRange| #[trigger] cur.contains(x) implies exists|k: int|
            0 <= k < n && refers_to(#[trigger] index.references@[k], d) && index.references@[k].range == x by {
            let j = choose|j: int| 0 <= j < cur.len() && cur[j] == x;
            if refers_to(index.references@[n - 1], d) && j == cur.len() - 1 {
                assert(refers_to(index.references@[n - 1], d) && index.references@[n - 1].range == x);
            } else {
                assert(prev[j] == x);
                assert(prev.contains(x));
            }
        }
    }
}

proof fn lemma_inheriting_ranges(index: SemanticIndex, d: Definition, n: int)
    requires
        0 <= n <= index.inheritance@.len(),
    ensures
        forall|e: int| 0 <= e < n && (#[trigger] index.inheritance@[e]).parent == Some(d.id) ==> inheriting_ranges(
            index,
            d,
            n,
        ).contains(index.inheritance@[e].range),
        forall|x: ByteRange| #[trigger] inheriting_ranges(index, d, n).contains(x) ==> exists|e: int|
            0 <= e < n && (#[trigger] index.inheritance@[e]).parent == Some(d.id) && index.inheritance@[e].range == x,
    decreases n,
{
    if n > 0 {
        lemma_inheriting_ranges(index, d, n - 1);
        let prev = inheriting_ranges(index, d, n - 1);
        let cur = inheriting_ranges(index, d, n);
        assert forall|e: int| 0 <= e < n && (#[trigger] index.inheritance@[e]).parent == Some(d.id) implies cur.contains(
            index.inheritance@[e].range,
        ) by {
            if e < n - 1 {
                let j = choose|j: int| 0 <= j < prev.len() && prev[j] == index.inheritance@[e].range;
                if index.inheritance@[n - 1].parent == Some(d.id) {
                    assert(cur[j] == prev[j]);
                }
            } else {
                assert(cur[cur.len() - 1] == index.inheritance@[e].range);
            }
        }
        assert forall|x: ByteRange| #[trigger] cur.contains(x) implies exists|e: int|
            0 <= e < n && (#[trigger] index.inheritance@[e]).parent == Some(d.id) && index.inheritance@[e].range == x by {
            let j = choose|j: int| 0 <= j < cur.len() && cur[j] == x;
            if index.inheritance@[n - 1].parent == Some(d.id) && j == cur.len() - 1 {
                assert(index.inheritance@[n - 1].parent == Some(d.id) && index.inheritance@[n - 1].range == x);
            } else {
                assert(prev[j] == x);
                assert(prev.contains(x));
            }
        }
    }
}

proof fn lemma_reference_ranges_found(index: SemanticIndex, d: Definition, include_declaration: bool)
    ensures
        found_all(index, d, include_declaration, reference_ranges_of(index, d, include_declaration)),
{
    let refs = index.references@;
    let head = if include_declaration { seq![d.selection_range] } else { Seq::<ByteRange>::empty() };
    let mid = referring_ranges(index, d, refs.len() as int);
    let tail = if d.kind == DefinitionKind::Table {
        inheriting_ranges(index, d, index.inheritance@.len() as int)
    } else {
        Seq::empty()
    };
    let all = reference_ranges_of(index, d, include_declaration);
    assert(all == head + mid + tail);
    lemma_referring_ranges(index, d, refs.len() as int);
    lemma_inheriting_ranges(index, d, index.inheritance@.len() as int);
    if include_declaration {
        assert(all[0] == d.selection_range);
    }
    assert forall|k: int| 0 <= k < refs.len() && refers_to(#[trigger] refs[k], d) implies all.contains(refs[k].range) by {
        let j = choose|j: int| 0 <= j < mid.len() && mid[j] == refs[k].range;
        assert(all[head.len() + j] == mid[j]);
    }
    assert forall|e: int| 0 <= e < index.inheritance@.len() && (#[trigger] index.inheritance@[e]).parent == Some(d.id)
        && d.kind == DefinitionKind::Table implies all.contains(index.inheritance@[e].range) by {
        let j = choose|j: int| 0 <= j < tail.len() && tail[j] == index.inheritance@[e].range;
        assert(all[head.len() + mid.len() + j] == tail[j]);
    }
    assert forall|x: ByteRange| #[trigger] all.contains(x) implies (include_declaration && x == d.selection_range)
        || found_as(index, d, x) by {
        let j = choose|j: int| 0 <= j < all.len() && all[j] == x;
        if j >= head.len() + mid.len() {
            assert(tail[j - head.len() - mid.len()] == x);
            assert(tail.contains(x));
            let e = choose|e: int|
                0 <= e < index.inheritance@.len() && (#[trigger] index.inheritance@[e]).parent == Some(d.id)
                    && index.inheritance@[e].range == x;
        } else if j >= head.len() {
            assert(mid[j - head.len()] == x);
            assert(mid.contains(x));
            let k = choose|k: int| 0 <= k < refs.len() && refers_to(#[trigger] refs[k], d) && refs[k].range == x;
        }
    }
}

// ---------------------------------------------------------------------------
// Markdown text
// ---------------------------------------------------------------------------
/// A character made safe inside a code span: backticks become quotes and
/// line breaks spaces.
pub open spec fn safe_char(c: char) -> char {
    if c == '`' {
        '\''
    } else if c == '\r' || c == '\n' {
        ' '
    } else {
        c
    }
}

pub open spec fn safe_code_chars(v: Seq<char>) -> Seq<char> {
    v.map_values(|c: char| safe_char(c))
}

/// `value` as a Markdown code span.
pub open spec fn code_span(v: Seq<char>) -> Seq<char> {
    "`"@ + safe_code_chars(v) + "`"@
}

/// Hover text is safe Markdown: a code span is delimited by one backtick on
/// each side and holds no other backtick and no line break.
pub proof fn lemma_code_span_safe(v: Seq<char>)
    ensures
        code_span(v).len() == v.len() + 2,
        code_span(v)[0] == '`',
        code_span(v)[v.len() + 1int] == '`',
        forall|i: int|
            0 < i <= v.len() ==> #[trigger] code_span(v)[i] != '`' && code_span(v)[i] != '\n' && code_span(v)[i]
                != '\r',
{
    reveal_strlit("`");
    assert forall|i: int| 0 < i <= v.len() implies #[trigger] code_span(v)[i] != '`' && code_span(v)[i] != '\n'
        && code_span(v)[i] != '\r' by {
        assert(code_span(v)[i] == safe_code_chars(v)[i - 1]);
        assert(safe_code_chars(v)[i - 1] == safe_char(v[i - 1]));
    }
}

pub fn safe_code_text(value: &str) -> (r: String)
    ensures
        r@ == safe_code_chars(value@),
{
    let n = value.unicode_len();
    let mut out = String::new();
    let mut last: usize = 0;
    let mut i: usize = 0;
    while i < n
        invariant
            n == value@.len(),
            last <= i <= n,
            out@ == safe_code_chars(value@.subrange(0, last as int)),
            forall|k: int| last <= k < i ==> safe_char(#[trigger] value@[k]) == value@[k],
        decreases n - i,
    {
        let c = value.get_char(i);
        if c == '`' || c == '\r' || c == '\n' {
            let ghost before = out@;
            let piece = value.substring_char(last, i);
            out.append(piece);
            if c == '`' {
                out.append("'");
            } else {
                out.append(" ");
            }
            proof {
                reveal_strlit("'");
                reveal_strlit(" ");
                assert(safe_code_chars(value@.subrange(0, i + 1)) =~= safe_code_chars(value@.subrange(0, last as int))
                    + value@.subrange(last as int, i as int) + seq![safe_char(c)]);
                assert(out@ =~= safe_code_chars(value@.subrange(0, i + 1)));
            }
            last = i + 1;
        }
        i = i + 1;
    }
    let piece = value.substring_char(last, n);
    out.append(piece);
    proof {
        assert(safe_code_chars(value@.subrange(0, n as int)) =~= safe_code_chars(value@.subrange(0, last as int))
            + value@.subrange(last as int, n as int));
        assert(value@.subrange(0, n as int) =~= value@);
    }
    out
}

pub fn code(value: &str) -> (r: String)
    ensures
        r@ == code_span(value@),
{
    let mut r = String::from_str("`");
    r.append(safe_code_text(value).as_str());
    r.append("`");
    r
}

/// The decimal text of `n`.
pub open spec fn decimal_text(n: nat) -> Seq<char> {
    decode_utf8(decimal_bytes(n))
}

fn decimal_text_exec(n: u64) -> (r: String)
    ensures
        r@ == decimal_text(n as nat),
{
    let r = decimal_string(n);
    proof {
        encode_utf8_decode_utf8(r@);
    }
    r
}

/// The decimal text of a signed number.
pub open spec fn signed_decimal_text(n: i64) -> Seq<char> {
    if n < 0 {
        "-"@ + decimal_text((-n) as nat)
    } else {
        decimal_text(n as nat)
    }
}

pub fn signed_decimal(n: i64) -> (r: String)
    ensures
        r@ == signed_decimal_text(n),
{
    if n < 0 {
        let magnitude: u64 = ((-(n + 1)) as u64) + 1;
        let mut r = String::from_str("-");
        r.append(decimal_text_exec(magnitude).as_str());
        r
    } else {
        decimal_text_exec(n as u64)
    }
}

/// `line L, column C` for byte `offset`: the 1-based line and character
/// column, with the offset clamped to the text.
pub open spec fn location_text(b: Seq<u8>, offset: int) -> Seq<char> {
    let o = if offset < b.len() { offset } else { b.len() as int };
    let line_start = match last_byte_before(b, o, 10) {
        Some(i) => i + 1,
        None => 0,
    };
    "line "@ + decimal_text(count_byte(b, o, 10) + 1) + ", column "@ + decimal_text(
        decode_utf8(b.subrange(line_start, o)).len() + 1,
    )
}

pub fn source_location(source: &str, offset: usize) -> (r: String)
    requires
        offset < source.spec_bytes().len() ==> is_char_boundary(source.spec_bytes(), offset as int),
        source.spec_bytes().len() < usize::MAX,
    ensures
        r@ == location_text(source.spec_bytes(), offset as int),
{
    let b = source.as_bytes();
    proof {
        lemma_view_from_bytes(source);
        is_char_boundary_start_end_of_seq(b@);
    }
    let o = if offset < b.len() { offset } else { b.len() };
    let lines = count_byte_exec(b, o, 10);
    let line_start = match crate::text::rfind_byte(b, 0, o, 10) {
        Some(i) => i + 1,
        None => 0,
    };
    proof {
        lemma_last_byte_before(b@, o as int, 10);
        if let Some(i) = last_byte_before(b@, o as int, 10) {
            lemma_ascii_boundaries(b@, i);
        }
    }
    let line_text = substr(source, line_start, o);
    proof {
        lemma_view_from_bytes(line_text);
        crate::text::lemma_decode_len(line_text.spec_bytes());
    }
    let columns = line_text.unicode_len();
    let mut r = String::from_str("line ");
    r.append(decimal_text_exec((lines + 1) as u64).as_str());
    r.append(", column ");
    r.append(decimal_text_exec((columns + 1) as u64).as_str());
    r
}

pub open spec fn spec_value_type_name(t: crate::semantic::ValueType) -> Seq<char> {
    match t {
        crate::semantic::ValueType::String => "string"@,
        crate::semantic::ValueType::Integer => "integer"@,
        crate::semantic::ValueType::Float => "float"@,
        crate::semantic::ValueType::Boolean => "boolean"@,
        crate::semantic::ValueType::OffsetDateTime => "offset date-time"@,
        crate::semantic::ValueType::LocalDateTime => "local date-time"@,
        crate::semantic::ValueType::LocalDate => "local date"@,
        crate::semantic::ValueType::LocalTime => "local time"@,
        crate::semantic::ValueType::Array => "array"@,
        crate::semantic::ValueType::Table => "table"@,
        crate::semantic::ValueType::Quantity => "quantity"@,
        crate::semantic::ValueType::EnumReference => "enum reference"@,
        crate::semantic::ValueType::EnumDefinition => "enum definition"@,
        crate::semantic::ValueType::Unknown => "unknown"@,
    }
}

pub fn value_type_name(t: crate::semantic::ValueType) -> (r: &'static str)
    ensures
        r@ == spec_value_type_name(t),
{
    match t {
        crate::semantic::ValueType::String => "string",
        crate::semantic::ValueType::Integer => "integer",
        crate::semantic::ValueType::Float => "float",
        crate::semantic::ValueType::Boolean => "boolean",
        crate::semantic::ValueType::OffsetDateTime => "offset date-time",
        crate::semantic::ValueType::LocalDateTime => "local date-time",
        crate::semantic::ValueType::LocalDate => "local date",
        crate::semantic::ValueType::LocalTime => "local time",
        crate::semantic::ValueType::Array => "array",
        crate::semantic::ValueType::Table => "table",
        crate::semantic::ValueType::Quantity => "quantity",
        crate::semantic::ValueType::EnumReference => "enum reference",
        crate::semantic::ValueType::EnumDefinition => "enum definition",
        crate::semantic::ValueType::Unknown => "unknown",
    }
}

/// The authored value of a definition: its text after the first `=`,
/// trimmed; none when its range is not in the text.
pub open spec fn spec_definition_value(b: Seq<u8>, d: Definition) -> Option<Seq<u8>> {
    let (start, end) = (d.range.start as int, d.range.end as int);
    if !located(b, d.range) {
        None
    } else {
        match first_byte_in(b, start, end, 61) {
            Some(q) => {
                let s = trim_start_pos(b, q + 1, end);
                Some(b.subrange(s, trim_end_pos(b, s, end)))
            },
            None => None,
        }
    }
}

pub fn definition_value<'a>(source: &'a str, definition: &Definition) -> (r: Option<&'a str>)
    ensures
        match r {
            Some(v) => spec_definition_value(source.spec_bytes(), *definition) == Some(v.spec_bytes()),
            None => spec_definition_value(source.spec_bytes(), *definition) is None,
        },
{
    let b = source.as_bytes();
    let ghost bs = b@;
    let start = definition.range.start;
    let end = definition.range.end;
    if str_get(source, start, end).is_none() {
        return None;
    }
    proof {
        lemma_view_from_bytes(source);
        lemma_first_byte_in(bs, start as int, end as int, 61);
    }
    let mut q = start;
    while q < end && b[q] != 61
        invariant
            start <= q <= end <= bs.len(),
            b@ == bs,
            first_byte_in(bs, start as int, end as int, 61) == first_byte_in(bs, q as int, end as int, 61),
        decreases end - q,
    {
        q = q + 1;
    }
    if q >= end {
        return None;
    }
    proof {
        lemma_ascii_boundaries(bs, q as int);
    }
    let s = trim_start_from(b, q + 1, end);
    proof {
        lemma_trim_start_boundary(bs, q + 1, end as int);
    }
    let e = trim_end_to(b, s, end);
    proof {
        lemma_trim_end_boundary(bs, s as int, end as int);
    }
    Some(substr(source, s, e))
}

/// A superscript digit or minus starts at `i`: ¹ ² ³ ⁰ ⁴–⁹ ⁻.
pub open spec fn superscript_at(b: Seq<u8>, i: int) -> bool {
    ||| (0 <= i && i + 1 < b.len() && b[i] == 0xc2 && (b[i + 1] == 0xb9 || b[i + 1] == 0xb2 || b[i + 1] == 0xb3))
    ||| (0 <= i && i + 2 < b.len() && b[i] == 0xe2 && b[i + 1] == 0x81 && (b[i + 2] == 0xb0 || (0xb4 <= b[i + 2] <= 0xb9)
        || b[i + 2] == 0xbb))
}

/// Where the exponent of a unit starts: at its first `^`, else at its first
/// superscript.
pub open spec fn exponent_start(b: Seq<u8>) -> Option<int> {
    match first_byte_in(b, 0, b.len() as int, 94) {
        Some(p) => Some(p),
        None => first_superscript(b, 0),
    }
}

pub open spec fn first_superscript(b: Seq<u8>, i: int) -> Option<int>
    decreases b.len() - i,
{
    if i < 0 || i >= b.len() {
        None
    } else if superscript_at(b, i) {
        Some(i)
    } else {
        first_superscript(b, i + 1)
    }
}

/// The name part of a unit: the text before its exponent.
pub open spec fn unit_name(u: Seq<u8>) -> Seq<u8> {
    match exponent_start(u) {
        Some(p) => u.subrange(0, p),
        None => u,
    }
}

/// The exponent part of a unit, from its start to the end.
pub open spec fn unit_exponent(u: Seq<u8>) -> Option<Seq<u8>> {
    match exponent_start(u) {
        Some(p) => Some(u.subrange(p, u.len() as int)),
        None => None,
    }
}

/// A unit split into its name and its exponent, if any.
pub fn split_exponent(unit: &str) -> (r: (&str, Option<&str>))
    ensures
        r.0.spec_bytes() == unit_name(unit.spec_bytes()),
        match unit_exponent(unit.spec_bytes()) {
            Some(x) => r.1 matches Some(e) && e.spec_bytes() == x,
            None => r.1 is None,
        },
{
    let b = unit.as_bytes();
    let ghost bs = b@;
    proof {
        lemma_view_from_bytes(unit);
        is_char_boundary_start_end_of_seq(bs);
        lemma_first_byte_in(bs, 0, bs.len() as int, 94);
    }
    let mut p: usize = 0;
    while p < b.len() && b[p] != 94
        invariant
            p <= bs.len(),
            b@ == bs,
            first_byte_in(bs, 0, bs.len() as int, 94) == first_byte_in(bs, p as int, bs.len() as int, 94),
        decreases bs.len() - p,
    {
        p = p + 1;
    }
    if p < b.len() {
        proof {
            lemma_ascii_boundaries(bs, p as int);
        }
        return (substr(unit, 0, p), Some(substr(unit, p, b.len())));
    }
    let mut i: usize = 0;
    while i < b.len()
        invariant
            i <= bs.len(),
            b@ == bs,
            valid_utf8(bs),
            bs == unit.spec_bytes(),
            is_char_boundary(bs, bs.len() as int),
            first_byte_in(bs, 0, bs.len() as int, 94) is None,
            first_superscript(bs, 0) == first_superscript(bs, i as int),
        decreases bs.len() - i,
    {
        let at = (i + 1 < b.len() && b[i] == 0xc2 && (b[i + 1] == 0xb9 || b[i + 1] == 0xb2 || b[i + 1] == 0xb3)) || (b.len() - i
            > 2 && b[i] == 0xe2 && b[i + 1] == 0x81 && (b[i + 2] == 0xb0 || (0xb4 <= b[i + 2] && b[i + 2]
            <= 0xb9) || b[i + 2] == 0xbb));
        if at {
            proof {
                is_char_boundary_iff_not_is_continuation_byte(bs, i as int);
                assert(superscript_at(bs, i as int));
            }
            return (substr(unit, 0, i), Some(substr(unit, i, b.len())));
        }
        i = i + 1;
    }
    (unit, None)
}


// ---------------------------------------------------------------------------
// Hover
// ---------------------------------------------------------------------------
/// A key path as dotted text.
pub open spec fn path_text(p: Seq<String>) -> Seq<char> {
    join_spec(pv(p), "."@)
}

/// The first quantity whose range holds `offset`.
pub open spec fn first_quantity_at(qs: Seq<QuantityOccurrence>, offset: int, n: int) -> Option<int>
    decreases n,
{
    if n <= 0 {
        None
    } else {
        match first_quantity_at(qs, offset, n - 1) {
            Some(i) => Some(i),
            None => if spec_contains(qs[n - 1].range, offset) {
                Some(n - 1)
            } else {
                None
            },
        }
    }
}

proof fn lemma_first_quantity_at_stable(qs: Seq<QuantityOccurrence>, offset: int, n: int, m: int)
    requires
        first_quantity_at(qs, offset, n) is Some,
        n <= m,
    ensures
        first_quantity_at(qs, offset, m) == first_quantity_at(qs, offset, n),
    decreases m - n,
{
    if n < m {
        lemma_first_quantity_at_stable(qs, offset, n, m - 1);
    }
}

fn first_quantity_at_exec(qs: &Vec<QuantityOccurrence>, offset: usize) -> (r: Option<usize>)
    ensures
        match r {
            Some(i) => first_quantity_at(qs@, offset as int, qs@.len() as int) == Some(i as int) && i < qs@.len(),
            None => first_quantity_at(qs@, offset as int, qs@.len() as int) is None,
        },
{
    let mut i: usize = 0;
    while i < qs.len()
        invariant
            i <= qs@.len(),
            first_quantity_at(qs@, offset as int, i as int) is None,
        decreases qs@.len() - i,
    {
        if contains(qs[i].range, offset) {
            proof {
                lemma_first_quantity_at_stable(qs@, offset as int, i + 1, qs@.len() as int);
            }
            return Some(i);
        }
        i = i + 1;
    }
    None
}

/// How an exponent is shown: as code, or `none`.
pub open spec fn exponent_text(e: Option<Seq<u8>>) -> Seq<char> {
    match e {
        Some(x) => code_span(decode_utf8(x)),
        None => "none"@,
    }
}

/// The text of a magnitude.
pub open spec fn magnitude_text(m: QuantityMagnitude) -> Seq<char> {
    match m {
        QuantityMagnitude::Integer(n) => signed_decimal_text(n),
        QuantityMagnitude::Float(s) => s@,
    }
}

pub open spec fn relation_text(s: QuantitySeparator) -> Seq<char> {
    match s {
        QuantitySeparator::Per => "per"@,
        QuantitySeparator::Times => "times"@,
    }
}

/// The super-unit line: its name, relation and exponent, or `none` unless
/// both a separator and a super unit are present.
pub open spec fn super_unit_text(q: QuantityOccurrence) -> Seq<char> {
    match q.separator {
        Some(sep) => match q.super_unit {
            Some(su) => "\n- Super-unit: "@ + code_span(decode_utf8(unit_name(encode_utf8(su@)))) + " ("@
                + relation_text(sep) + ", exponent "@ + exponent_text(unit_exponent(encode_utf8(su@))) + ")"@,
            None => "\n- Super-unit: none"@,
        },
        None => "\n- Super-unit: none"@,
    }
}

/// The hover text of a quantity.
pub open spec fn quantity_markdown(q: QuantityOccurrence) -> Seq<char> {
    let u = encode_utf8(q.unit@);
    "**ATML quantity**\n\n- Magnitude: "@ + code_span(magnitude_text(q.magnitude)) + "\n- Unit: "@ + code_span(
        decode_utf8(unit_name(u)),
    ) + "\n- Exponent: "@ + exponent_text(unit_exponent(u)) + super_unit_text(q)
}

fn exponent_shown(e: Option<&str>) -> (r: String)
    ensures
        r@ == exponent_text(
            match e {
                Some(x) => Some(x.spec_bytes()),
                None => None,
            },
        ),
{
    match e {
        Some(x) => {
            proof {
                lemma_view_from_bytes(x);
            }
            code(x)
        },
        None => String::from_str("none"),
    }
}

fn unit_name_shown(unit: &str) -> (r: (String, String))
    ensures
        r.0@ == code_span(decode_utf8(unit_name(unit.spec_bytes()))),
        r.1@ == exponent_text(unit_exponent(unit.spec_bytes())),
{
    let (name, exponent) = split_exponent(unit);
    proof {
        lemma_view_from_bytes(name);
    }
    (code(name), exponent_shown(exponent))
}

pub fn quantity_hover(q: &QuantityOccurrence) -> (r: HoverResult)
    ensures
        r.range == q.range,
        r.markdown@ == quantity_markdown(*q),
{
    let (unit, exponent) = unit_name_shown(q.unit.as_str());
    let magnitude = match &q.magnitude {
        QuantityMagnitude::Integer(n) => signed_decimal(*n),
        QuantityMagnitude::Float(s) => s.clone(),
    };
    let mut markdown = String::from_str("**ATML quantity**\n\n- Magnitude: ");
    markdown.append(code(magnitude.as_str()).as_str());
    markdown.append("\n- Unit: ");
    markdown.append(unit.as_str());
    markdown.append("\n- Exponent: ");
    markdown.append(exponent.as_str());
    let mut shown = false;
    if let Some(separator) = q.separator {
        if let Some(super_unit) = &q.super_unit {
            let (name, super_exponent) = unit_name_shown(super_unit.as_str());
            markdown.append("\n- Super-unit: ");
            markdown.append(name.as_str());
            markdown.append(" (");
            match separator {
                QuantitySeparator::Per => markdown.append("per"),
                QuantitySeparator::Times => markdown.append("times"),
            }
            markdown.append(", exponent ");
            markdown.append(super_exponent.as_str());
            markdown.append(")");
            shown = true;
        }
    }
    if !shown {
        markdown.append("\n- Super-unit: none");
    }
    HoverResult { range: q.range, markdown }
}

// ---------------------------------------------------------------------------
// Enum members
// ---------------------------------------------------------------------------
/// `d` is a member of the enum at `enum_path`.
pub open spec fn is_member_of(d: Definition, enum_path: Seq<Seq<char>>) -> bool {
    &&& d.kind == DefinitionKind::EnumMember
    &&& d.path@.len() == enum_path.len() + 1
    &&& enum_path.is_prefix_of(pv(d.path@))
}

/// The members, among the first `n` definitions, each as code.
pub open spec fn member_spans(defs: Seq<Definition>, enum_path: Seq<Seq<char>>, n: int) -> Seq<Seq<char>>
    decreases n,
{
    if n <= 0 {
        Seq::empty()
    } else if is_member_of(defs[n - 1], enum_path) {
        member_spans(defs, enum_path, n - 1).push(code_span(defs[n - 1].name@))
    } else {
        member_spans(defs, enum_path, n - 1)
    }
}

/// The `Allowed:` paragraph of an enum, empty when it has no members.
pub open spec fn enum_members_text(index: SemanticIndex, enum_path: Seq<Seq<char>>) -> Seq<char> {
    let m = member_spans(index.definitions@, enum_path, index.definitions@.len() as int);
    if m.len() > 0 {
        "\n\nAllowed: "@ + join_spec(m, ", "@)
    } else {
        Seq::empty()
    }
}

fn append_enum_members(index: &SemanticIndex, enum_path: &[String], markdown: &mut String)
    ensures
        final(markdown)@ == old(markdown)@ + enum_members_text(*index, pv(enum_path@)),
{
    let ghost ep = pv(enum_path@);
    let mut members: Vec<String> = Vec::new();
    let mut i: usize = 0;
    while i < index.definitions.len()
        invariant
            ep == pv(enum_path@),
            i <= index.definitions@.len(),
            pv(members@) == member_spans(index.definitions@, ep, i as int),
        decreases index.definitions@.len() - i,
    {
        let d = &index.definitions[i];
        let member_len = d.path.len();
        if d.kind == DefinitionKind::EnumMember && enum_path.len() < usize::MAX && member_len == enum_path.len() + 1
            && path_starts_with(d.path.as_slice(), enum_path) {
            let shown = code(d.name.as_str());
            members.push(shown);
            assert(is_member_of(*d, ep));
            assert(member_spans(index.definitions@, ep, i + 1) == member_spans(index.definitions@, ep, i as int).push(
                code_span(d.name@),
            ));
            assert(pv(members@) =~= member_spans(index.definitions@, ep, i as int).push(code_span(d.name@)));
        } else {
            proof {
                assert(ep.len() == enum_path@.len());
                assert(!is_member_of(*d, ep));
                assert(member_spans(index.definitions@, ep, i + 1) == member_spans(index.definitions@, ep, i as int));
            }
        }
        i = i + 1;
    }
    if members.len() > 0 {
        markdown.append("\n\nAllowed: ");
        markdown.append(join(members.as_slice(), ", ").as_str());
    }
}

// ---------------------------------------------------------------------------
// Inherited values
// ---------------------------------------------------------------------------
/// The suffixes of the keys at or below `child`, among the first `n`
/// definitions: what the child sets itself.
pub open spec fn explicit_upto(defs: Seq<Definition>, child: Seq<Seq<char>>, n: int) -> Set<Seq<Seq<char>>>
    decreases n,
{
    if n <= 0 {
        Set::empty()
    } else if defs[n - 1].kind == DefinitionKind::Key && child.is_prefix_of(pv(defs[n - 1].path@)) {
        explicit_upto(defs, child, n - 1).insert(pv(defs[n - 1].path@).skip(child.len() as int))
    } else {
        explicit_upto(defs, child, n - 1)
    }
}

/// A key strictly below the table at `parent`.
pub open spec fn key_below(d: Definition, parent: Seq<Seq<char>>) -> bool {
    &&& d.kind == DefinitionKind::Key
    &&& d.path@.len() > parent.len()
    &&& parent.is_prefix_of(pv(d.path@))
}

/// The value shown for a key: its authored value, or `unknown`.
pub open spec fn value_chars(b: Seq<u8>, d: Definition) -> Seq<char> {
    match spec_definition_value(b, d) {
        Some(v) => decode_utf8(v),
        None => "unknown"@,
    }
}

/// One inherited value: the key suffix, its value and the table it is from.
pub open spec fn inherited_line(b: Seq<u8>, d: Definition, suffix: Seq<Seq<char>>, parent: Seq<Seq<char>>) -> Seq<
    char,
> {
    code_span(join_spec(suffix, "."@)) + " = "@ + code_span(value_chars(b, d)) + " from "@ + code_span(
        join_spec(parent, "."@),
    )
}

/// The values a table at `parent` passes on, from definition `j` on, with
/// the key suffixes already `seen` left out; yields the lines and the
/// suffixes seen after.
pub open spec fn inherited_from(
    b: Seq<u8>,
    index: SemanticIndex,
    parent: Seq<Seq<char>>,
    j: int,
    seen: Set<Seq<Seq<char>>>,
) -> (Seq<Seq<char>>, Set<Seq<Seq<char>>>)
    decreases index.definitions@.len() - j,
{
    if j < 0 || j >= index.definitions@.len() {
        (Seq::empty(), seen)
    } else {
        let d = index.definitions@[j];
        let suffix = pv(d.path@).skip(parent.len() as int);
        if key_below(d, parent) && !seen.contains(suffix) {
            let rest = inherited_from(b, index, parent, j + 1, seen.insert(suffix));
            (seq![inherited_line(b, d, suffix, parent)] + rest.0, rest.1)
        } else {
            inherited_from(b, index, parent, j + 1, seen)
        }
    }
}

/// The inherited lines of the parents `chain[k..]`, in order.
pub open spec fn inherited_lines(
    b: Seq<u8>,
    index: SemanticIndex,
    chain: Seq<int>,
    k: int,
    seen: Set<Seq<Seq<char>>>,
) -> Seq<Seq<char>>
    decreases chain.len() - k,
{
    if k < 0 || k >= chain.len() {
        Seq::empty()
    } else {
        let r = inherited_from(b, index, pv(index.definitions@[chain[k]].path@), 0, seen);
        r.0 + inherited_lines(b, index, chain, k + 1, r.1)
    }
}

/// The `Inherited values:` list of the table at `child`: each key that a
/// parent in its chain sets and that neither the child nor an earlier parent
/// sets, empty when there is none.
pub open spec fn inherited_text(b: Seq<u8>, index: SemanticIndex, child: Seq<Seq<char>>) -> Seq<char> {
    let lines = inherited_lines(
        b,
        index,
        chain_positions(index, child),
        0,
        explicit_upto(index.definitions@, child, index.definitions@.len() as int),
    );
    if lines.len() > 0 {
        "\n\nInherited values:\n\n- "@ + join_spec(lines, "\n- "@)
    } else {
        Seq::empty()
    }
}

fn inherited_from_exec(
    source: &str,
    index: &SemanticIndex,
    parent: &Definition,
    seen: &mut Vec<Vec<String>>,
    lines: &mut Vec<String>,
)
    ensures
        pv(final(lines)@) == pv(old(lines)@) + inherited_from(
            source.spec_bytes(),
            *index,
            pv(parent.path@),
            0,
            path_set(old(seen)@),
        ).0,
        path_set(final(seen)@) == inherited_from(
            source.spec_bytes(),
            *index,
            pv(parent.path@),
            0,
            path_set(old(seen)@),
        ).1,
{
    let ghost b = source.spec_bytes();
    let ghost pp = pv(parent.path@);
    let ghost s0 = path_set(seen@);
    let ghost l0 = pv(lines@);
    let parent_text = join(parent.path.as_slice(), ".");
    let mut j: usize = 0;
    while j < index.definitions.len()
        invariant
            b == source.spec_bytes(),
            pp == pv(parent.path@),
            parent_text@ == join_spec(pp, "."@),
            j <= index.definitions@.len(),
            l0 + inherited_from(b, *index, pp, 0, s0).0 == pv(lines@) + inherited_from(
                b,
                *index,
                pp,
                j as int,
                path_set(seen@),
            ).0,
            inherited_from(b, *index, pp, 0, s0).1 == inherited_from(b, *index, pp, j as int, path_set(seen@)).1,
        decreases index.definitions@.len() - j,
    {
        let d = &index.definitions[j];
        let ghost vs = path_set(seen@);
        let ghost ls = pv(lines@);
        if d.kind == DefinitionKind::Key && d.path.len() > parent.path.len() && path_starts_with(
            d.path.as_slice(),
            parent.path.as_slice(),
        ) {
            let suffix = path_suffix(d.path.as_slice(), parent.path.len());
            if !path_listed(seen, suffix.as_slice()) {
                let ghost sfx = pv(suffix@);
                let ghost before = seen@;
                let suffix_text = join(suffix.as_slice(), ".");
                seen.push(suffix);
                proof {
                    assert(seen@.map_values(|q: Vec<String>| pv(q@)) =~= before.map_values(
                        |q: Vec<String>| pv(q@),
                    ).push(sfx));
                    before.map_values(|q: Vec<String>| pv(q@)).lemma_push_to_set_commute(sfx);
                    assert(path_set(seen@) =~= vs.insert(sfx));
                }
                let value = match definition_value(source, d) {
                    Some(v) => {
                        proof {
                            lemma_view_from_bytes(v);
                        }
                        v
                    },
                    None => "unknown",
                };
                let mut line = code(suffix_text.as_str());
                line.append(" = ");
                line.append(code(value).as_str());
                line.append(" from ");
                line.append(code(parent_text.as_str()).as_str());
                lines.push(line);
                proof {
                    let rest = inherited_from(b, *index, pp, j + 1, vs.insert(sfx));
                    assert(pv(lines@) =~= ls.push(inherited_line(b, *d, sfx, pp)));
                    assert(ls + (seq![inherited_line(b, *d, sfx, pp)] + rest.0) =~= ls.push(
                        inherited_line(b, *d, sfx, pp),
                    ) + rest.0);
                }
            }
        }
        j = j + 1;
    }
}

fn append_inherited_values(source: &str, index: &SemanticIndex, child_path: &[String], markdown: &mut String)
    ensures
        final(markdown)@ == old(markdown)@ + inherited_text(source.spec_bytes(), *index, pv(child_path@)),
{
    let ghost b = source.spec_bytes();
    let ghost cp = pv(child_path@);
    let mut seen: Vec<Vec<String>> = Vec::new();
    let mut i: usize = 0;
    assert(path_set(seen@) =~= Set::empty());
    while i < index.definitions.len()
        invariant
            cp == pv(child_path@),
            i <= index.definitions@.len(),
            path_set(seen@) == explicit_upto(index.definitions@, cp, i as int),
        decreases index.definitions@.len() - i,
    {
        let d = &index.definitions[i];
        if d.kind == DefinitionKind::Key && path_starts_with(d.path.as_slice(), child_path) {
            let ghost before = seen@;
            let suffix = path_suffix(d.path.as_slice(), child_path.len());
            let ghost sfx = pv(suffix@);
            seen.push(suffix);
            proof {
                assert(seen@.map_values(|q: Vec<String>| pv(q@)) =~= before.map_values(
                    |q: Vec<String>| pv(q@),
                ).push(sfx));
                before.map_values(|q: Vec<String>| pv(q@)).lemma_push_to_set_commute(sfx);
            }
        }
        i = i + 1;
    }
    let ghost s0 = path_set(seen@);
    let chain = index.inheritance_chain(child_path);
    let ghost positions = chain_positions(*index, cp);
    let mut lines: Vec<String> = Vec::new();
    let mut k: usize = 0;
    while k < chain.len()
        invariant
            b == source.spec_bytes(),
            cp == pv(child_path@),
            positions == chain_positions(*index, cp),
            chain@.map_values(|d: &Definition| *d) == positions.map_values(|i: int| index.definitions@[i]),
            k <= chain@.len(),
            inherited_lines(b, *index, positions, 0, s0) == pv(lines@) + inherited_lines(
                b,
                *index,
                positions,
                k as int,
                path_set(seen@),
            ),
        decreases chain@.len() - k,
    {
        let parent = chain[k];
        let ghost vs = path_set(seen@);
        let ghost ls = pv(lines@);
        proof {
            assert(chain@.map_values(|d: &Definition| *d)[k as int] == *parent);
        }
        inherited_from_exec(source, index, parent, &mut seen, &mut lines);
        proof {
            let r = inherited_from(b, *index, pv(parent.path@), 0, vs);
            assert(chain@.map_values(|d: &Definition| *d).len() == positions.len());
            assert(positions.map_values(|i: int| index.definitions@[i])[k as int] == *parent);
            assert(index.definitions@[positions[k as int]] == *parent);
            assert(inherited_lines(b, *index, positions, k as int, vs) == r.0 + inherited_lines(
                b,
                *index,
                positions,
                k + 1,
                r.1,
            ));
            assert(ls + (r.0 + inherited_lines(b, *index, positions, k + 1, r.1)) =~= ls + r.0 + inherited_lines(
                b,
                *index,
                positions,
                k + 1,
                r.1,
            ));
        }
        k = k + 1;
    }
    proof {
        assert(chain@.map_values(|d: &Definition| *d).len() == positions.len());
        assert(inherited_lines(b, *index, positions, k as int, path_set(seen@)) =~= Seq::empty());
        assert(pv(lines@) =~= inherited_lines(b, *index, positions, 0, s0));
    }
    if lines.len() > 0 {
        markdown.append("\n\nInherited values:\n\n- ");
        markdown.append(join(lines.as_slice(), "\n- ").as_str());
    }
}


// ---------------------------------------------------------------------------
// Definitions and references
// ---------------------------------------------------------------------------
/// Every definition's name starts on a character boundary of the text, and
/// the text is shorter than the largest offset.
pub open spec fn hover_sliceable(b: Seq<u8>, index: SemanticIndex) -> bool {
    &&& b.len() < usize::MAX
    &&& forall|i: int|
        0 <= i < index.definitions@.len() ==> (#[trigger] index.definitions@[i]).selection_range.start < b.len()
            ==> is_char_boundary(b, index.definitions@[i].selection_range.start as int)
}

/// An index built from a text places what `hover` slices, for any text
/// shorter than the largest offset.
pub proof fn lemma_shape_hover_sliceable(b: Seq<u8>, index: SemanticIndex)
    requires
        crate::builder::index_shape(b, index),
        b.len() < usize::MAX,
    ensures
        hover_sliceable(b, index),
{
}

/// Whether `hover` can be asked about this text and index.
pub fn hover_ready(source: &str, index: &SemanticIndex) -> (r: bool)
    ensures
        r == hover_sliceable(source.spec_bytes(), *index),
{
    let b = source.as_bytes();
    proof {
        lemma_view_from_bytes(source);
    }
    if b.len() == usize::MAX {
        return false;
    }
    let mut i: usize = 0;
    while i < index.definitions.len()
        invariant
            b@ == source.spec_bytes(),
            valid_utf8(b@),
            b@.len() < usize::MAX,
            i <= index.definitions@.len(),
            forall|k: int|
                0 <= k < i ==> (#[trigger] index.definitions@[k]).selection_range.start < b@.len() ==> is_char_boundary(
                    b@,
                    index.definitions@[k].selection_range.start as int,
                ),
        decreases index.definitions@.len() - i,
    {
        let start = index.definitions[i].selection_range.start;
        if start < b.len() && str_get(source, start, b.len()).is_none() {
            proof {
                is_char_boundary_start_end_of_seq(b@);
            }
            return false;
        }
        i = i + 1;
    }
    true
}

pub open spec fn kind_title(k: DefinitionKind) -> Seq<char> {
    match k {
        DefinitionKind::Key => "Key"@,
        DefinitionKind::Table => "Table"@,
        DefinitionKind::ArrayOfTables => "Array of tables"@,
        DefinitionKind::Enum => "Enum"@,
        DefinitionKind::EnumMember => "Enum member"@,
    }
}

/// The hover text of a definition: kind, path, type and place, then the
/// members of an enum or the inherited values of a table.
pub open spec fn definition_markdown(b: Seq<u8>, index: SemanticIndex, d: Definition) -> Seq<char> {
    "**"@ + kind_title(d.kind) + "** "@ + code_span(path_text(d.path@)) + "\n\nType: `"@ + spec_value_type_name(
        d.value_type,
    ) + "`\n\nDefinition: "@ + location_text(b, d.selection_range.start as int) + (if d.kind
        == DefinitionKind::Enum {
        enum_members_text(index, pv(d.path@))
    } else {
        Seq::empty()
    }) + (if d.kind == DefinitionKind::Table {
        inherited_text(b, index, pv(d.path@))
    } else {
        Seq::empty()
    })
}

fn kind_title_exec(k: DefinitionKind) -> (r: &'static str)
    ensures
        r@ == kind_title(k),
{
    match k {
        DefinitionKind::Key => "Key",
        DefinitionKind::Table => "Table",
        DefinitionKind::ArrayOfTables => "Array of tables",
        DefinitionKind::Enum => "Enum",
        DefinitionKind::EnumMember => "Enum member",
    }
}

fn path_code(p: &[String]) -> (r: String)
    ensures
        r@ == code_span(join_spec(pv(p@), "."@)),
{
    code(join(p, ".").as_str())
}

pub fn definition_hover(source: &str, index: &SemanticIndex, definition: &Definition) -> (r: HoverResult)
    requires
        definition.selection_range.start < source.spec_bytes().len() ==> is_char_boundary(
            source.spec_bytes(),
            definition.selection_range.start as int,
        ),
        source.spec_bytes().len() < usize::MAX,
    ensures
        r.range == definition.selection_range,
        r.markdown@ == definition_markdown(source.spec_bytes(), *index, *definition),
{
    let mut markdown = String::from_str("**");
    markdown.append(kind_title_exec(definition.kind));
    markdown.append("** ");
    markdown.append(path_code(definition.path.as_slice()).as_str());
    markdown.append("\n\nType: `");
    markdown.append(value_type_name(definition.value_type));
    markdown.append("`\n\nDefinition: ");
    markdown.append(source_location(source, definition.selection_range.start).as_str());
    if definition.kind == DefinitionKind::Enum {
        append_enum_members(index, definition.path.as_slice(), &mut markdown);
    }
    if definition.kind == DefinitionKind::Table {
        append_inherited_values(source, index, definition.path.as_slice(), &mut markdown);
    }
    HoverResult { range: definition.selection_range, markdown }
}

/// The first enum definition at `path`.
pub open spec fn first_enum_at(defs: Seq<Definition>, path: Seq<Seq<char>>, n: int) -> Option<int>
    decreases n,
{
    if n <= 0 {
        None
    } else {
        match first_enum_at(defs, path, n - 1) {
            Some(i) => Some(i),
            None => if defs[n - 1].kind == DefinitionKind::Enum && pv(defs[n - 1].path@) == path {
                Some(n - 1)
            } else {
                None
            },
        }
    }
}

proof fn lemma_first_enum_at_stable(defs: Seq<Definition>, path: Seq<Seq<char>>, n: int, m: int)
    requires
        first_enum_at(defs, path, n) is Some,
        n <= m,
    ensures
        first_enum_at(defs, path, m) == first_enum_at(defs, path, n),
    decreases m - n,
{
    if n < m {
        lemma_first_enum_at_stable(defs, path, n, m - 1);
    }
}

fn first_enum_at_exec(defs: &Vec<Definition>, path: &[String]) -> (r: Option<usize>)
    ensures
        match r {
            Some(i) => first_enum_at(defs@, pv(path@), defs@.len() as int) == Some(i as int) && i < defs@.len(),
            None => first_enum_at(defs@, pv(path@), defs@.len() as int) is None,
        },
{
    let mut i: usize = 0;
    while i < defs.len()
        invariant
            i <= defs@.len(),
            first_enum_at(defs@, pv(path@), i as int) is None,
        decreases defs@.len() - i,
    {
        if defs[i].kind == DefinitionKind::Enum && path_eq(defs[i].path.as_slice(), path) {
            proof {
                lemma_first_enum_at_stable(defs@, pv(path@), i + 1, defs@.len() as int);
            }
            return Some(i);
        }
        i = i + 1;
    }
    None
}

/// The enum an enum value names: its target path without the last segment.
pub open spec fn enum_path_of(r: crate::semantic::Reference) -> Seq<String> {
    r.target_path@.subrange(
        0,
        if r.target_path@.len() > 0 {
            r.target_path@.len() - 1
        } else {
            0
        },
    )
}

/// The last segment of a reference's target, or nothing.
pub open spec fn member_text(r: crate::semantic::Reference) -> Seq<char> {
    if r.target_path@.len() > 0 {
        r.target_path@.last()@
    } else {
        Seq::empty()
    }
}

/// The hover text of an enum value.
pub open spec fn enum_value_markdown(b: Seq<u8>, index: SemanticIndex, r: crate::semantic::Reference) -> Seq<char> {
    let ep = enum_path_of(r);
    "**Enum value** "@ + code_span(path_text(ep) + "::"@ + member_text(r)) + "\n\nDefined by: "@ + code_span(
        path_text(ep),
    ) + (match first_enum_at(index.definitions@, pv(ep), index.definitions@.len() as int) {
        Some(i) => " ("@ + location_text(b, index.definitions@[i].selection_range.start as int) + ")"@,
        None => Seq::empty(),
    }) + enum_members_text(index, pv(ep))
}

/// The hover text of a path reference: its direct target and, where it
/// resolves, the final target and its authored value.
pub open spec fn path_reference_markdown(b: Seq<u8>, index: SemanticIndex, r: crate::semantic::Reference) -> Seq<
    char,
> {
    "**Path reference** "@ + code_span(path_text(r.target_path@)) + "\n\nDirect target: "@ + (match definition_position(
        index,
        r.target,
    ) {
        Some(i) => code_span(path_text(index.definitions@[i].path@)),
        None => "unresolved"@,
    }) + (match definition_position(index, r.resolved_target) {
        Some(i) => "\n\nResolved target: "@ + code_span(path_text(index.definitions@[i].path@)) + (
        match spec_definition_value(b, index.definitions@[i]) {
            Some(v) => "\n\nResolved value: "@ + code_span(decode_utf8(v)),
            None => Seq::empty(),
        }),
        None => Seq::empty(),
    })
}

/// What a reference's hover shows, if anything.
pub open spec fn spec_reference_hover(b: Seq<u8>, index: SemanticIndex, r: crate::semantic::Reference) -> Option<
    (ByteRange, Seq<char>),
> {
    match r.kind {
        ReferenceKind::EnumMember => Some((r.range, enum_value_markdown(b, index, r))),
        ReferenceKind::Path => Some((r.range, path_reference_markdown(b, index, r))),
        ReferenceKind::Inheritance => None,
    }
}

/// A hover result as its range and text.
pub open spec fn hover_view(h: Option<HoverResult>) -> Option<(ByteRange, Seq<char>)> {
    match h {
        Some(h) => Some((h.range, h.markdown@)),
        None => None,
    }
}

pub fn reference_hover(source: &str, index: &SemanticIndex, reference: &crate::semantic::Reference) -> (r: Option<
    HoverResult,
>)
    requires
        hover_sliceable(source.spec_bytes(), *index),
    ensures
        hover_view(r) == spec_reference_hover(source.spec_bytes(), *index, *reference),
{
    match reference.kind {
        ReferenceKind::EnumMember => {
            let n = reference.target_path.len();
            let cut = if n > 0 {
                n - 1
            } else {
                0
            };
            let enum_path = crate::paths::path_prefix(reference.target_path.as_slice(), cut);
            assert(enum_path@ == enum_path_of(*reference));
            let mut value = join(enum_path.as_slice(), ".");
            value.append("::");
            if n > 0 {
                value.append(reference.target_path[n - 1].as_str());
            }
            assert(value@ =~= path_text(enum_path_of(*reference)) + "::"@ + member_text(*reference));
            let mut markdown = String::from_str("**Enum value** ");
            markdown.append(code(value.as_str()).as_str());
            markdown.append("\n\nDefined by: ");
            markdown.append(path_code(enum_path.as_slice()).as_str());
            if let Some(i) = first_enum_at_exec(&index.definitions, enum_path.as_slice()) {
                markdown.append(" (");
                markdown.append(source_location(source, index.definitions[i].selection_range.start).as_str());
                markdown.append(")");
            }
            append_enum_members(index, enum_path.as_slice(), &mut markdown);
            Some(HoverResult { range: reference.range, markdown })
        },
        ReferenceKind::Path => {
            let mut markdown = String::from_str("**Path reference** ");
            markdown.append(path_code(reference.target_path.as_slice()).as_str());
            markdown.append("\n\nDirect target: ");
            match definition_position_exec(index, reference.target) {
                Some(i) => markdown.append(path_code(index.definitions[i].path.as_slice()).as_str()),
                None => markdown.append("unresolved"),
            }
            if let Some(i) = definition_position_exec(index, reference.resolved_target) {
                let resolved = &index.definitions[i];
                markdown.append("\n\nResolved target: ");
                markdown.append(path_code(resolved.path.as_slice()).as_str());
                if let Some(value) = definition_value(source, resolved) {
                    proof {
                        lemma_view_from_bytes(value);
                    }
                    markdown.append("\n\nResolved value: ");
                    markdown.append(code(value).as_str());
                }
            }
            Some(HoverResult { range: reference.range, markdown })
        },
        ReferenceKind::Inheritance => None,
    }
}

/// The hover text of an inheritance edge: the parent and child tables, and
/// the child's inherited values when the parent is defined.
pub open spec fn edge_markdown(b: Seq<u8>, index: SemanticIndex, edge: crate::semantic::InheritanceEdge) -> Seq<char> {
    "**Inherited table** "@ + code_span(path_text(edge.parent_path@)) + "\n\nChild: "@ + code_span(
        path_text(edge.child_path@),
    ) + (if definition_position(index, edge.parent) is Some {
        inherited_text(b, index, pv(edge.child_path@))
    } else {
        Seq::empty()
    })
}

/// What a hover at `offset` shows: a quantity, else a reference, else an
/// inheritance edge, else a definition name under it.
pub open spec fn spec_hover(b: Seq<u8>, index: SemanticIndex, offset: int) -> Option<(ByteRange, Seq<char>)> {
    match first_quantity_at(index.quantities@, offset, index.quantities@.len() as int) {
        Some(i) => Some((index.quantities@[i].range, quantity_markdown(index.quantities@[i]))),
        None => match first_reference_at(index.references@, offset, index.references@.len() as int) {
            Some(j) => spec_reference_hover(b, index, index.references@[j]),
            None => match first_edge_at(index.inheritance@, offset, index.inheritance@.len() as int) {
                Some(e) => Some((index.inheritance@[e].range, edge_markdown(b, index, index.inheritance@[e]))),
                None => match first_definition_at(index.definitions@, offset, index.definitions@.len() as int) {
                    Some(i) => Some(
                        (
                            index.definitions@[i].selection_range,
                            definition_markdown(b, index, index.definitions@[i]),
                        ),
                    ),
                    None => None,
                },
            },
        },
    }
}

/// Return compact, Markdown-safe semantic information at a UTF-8 byte offset.
pub fn hover(source: &str, index: &SemanticIndex, offset: usize) -> (r: Option<HoverResult>)
    requires
        hover_sliceable(source.spec_bytes(), *index),
    ensures
        hover_view(r) == spec_hover(source.spec_bytes(), *index, offset as int),
{
    if let Some(i) = first_quantity_at_exec(&index.quantities, offset) {
        return Some(quantity_hover(&index.quantities[i]));
    }
    if let Some(j) = crate::editing::first_reference_at_exec(&index.references, offset) {
        return reference_hover(source, index, &index.references[j]);
    }
    if let Some(e) = crate::editing::first_edge_at_exec(&index.inheritance, offset) {
        let edge = &index.inheritance[e];
        let mut markdown = String::from_str("**Inherited table** ");
        markdown.append(path_code(edge.parent_path.as_slice()).as_str());
        markdown.append("\n\nChild: ");
        markdown.append(path_code(edge.child_path.as_slice()).as_str());
        if definition_position_exec(index, edge.parent).is_some() {
            append_inherited_values(source, index, edge.child_path.as_slice(), &mut markdown);
        }
        return Some(HoverResult { range: edge.range, markdown });
    }
    match crate::editing::first_definition_at_exec(&index.definitions, offset) {
        Some(i) => Some(definition_hover(source, index, &index.definitions[i])),
        None => None,
    }
}

proof fn lemma_quantity_at_found(s: Seq<QuantityOccurrence>, offset: int, n: int)
    requires
        n <= s.len(),
    ensures
        match first_quantity_at(s, offset, n) {
            Some(i) => 0 <= i < n && spec_contains(s[i].range, offset),
            None => forall|j: int| 0 <= j < n ==> !spec_contains((#[trigger] s[j]).range, offset),
        },
    decreases n,
{
    if n > 0 {
        lemma_quantity_at_found(s, offset, n - 1);
    }
}

proof fn lemma_reference_at_found(s: Seq<crate::semantic::Reference>, offset: int, n: int)
    requires
        n <= s.len(),
    ensures
        match first_reference_at(s, offset, n) {
            Some(i) => 0 <= i < n && spec_contains(s[i].range, offset),
            None => forall|j: int| 0 <= j < n ==> !spec_contains((#[trigger] s[j]).range, offset),
        },
    decreases n,
{
    if n > 0 {
        lemma_reference_at_found(s, offset, n - 1);
    }
}

proof fn lemma_edge_at_found(s: Seq<crate::semantic::InheritanceEdge>, offset: int, n: int)
    requires
        n <= s.len(),
    ensures
        match first_edge_at(s, offset, n) {
            Some(i) => 0 <= i < n && spec_contains(s[i].range, offset),
            None => forall|j: int| 0 <= j < n ==> !spec_contains((#[trigger] s[j]).range, offset),
        },
    decreases n,
{
    if n > 0 {
        lemma_edge_at_found(s, offset, n - 1);
    }
}

proof fn lemma_definition_at_found(s: Seq<Definition>, offset: int, n: int)
    requires
        n <= s.len(),
    ensures
        match first_definition_at(s, offset, n) {
            Some(i) => 0 <= i < n && spec_contains(s[i].selection_range, offset),
            None => forall|j: int| 0 <= j < n ==> !spec_contains((#[trigger] s[j]).selection_range, offset),
        },
    decreases n,
{
    if n > 0 {
        lemma_definition_at_found(s, offset, n - 1);
    }
}

/// Hover answers exactly at the offsets that some quantity, reference,
/// inheritance parent or definition name covers, and the range it answers
/// with covers the offset.
pub proof fn lemma_hover_covers(b: Seq<u8>, index: SemanticIndex, offset: int)
    requires
        crate::builder::index_shape(b, index),
    ensures
        spec_hover(b, index, offset) is Some <==> (exists|i: int|
            0 <= i < index.quantities@.len() && spec_contains((#[trigger] index.quantities@[i]).range, offset)) || (exists|i: int|
            0 <= i < index.references@.len() && spec_contains((#[trigger] index.references@[i]).range, offset)) || (exists|i: int|
            0 <= i < index.inheritance@.len() && spec_contains((#[trigger] index.inheritance@[i]).range, offset)) || (exists|i: int|
            0 <= i < index.definitions@.len() && spec_contains((#[trigger] index.definitions@[i]).selection_range, offset)),
        spec_hover(b, index, offset) matches Some(h) ==> spec_contains(h.0, offset),
{
    let qs = index.quantities@;
    let rs = index.references@;
    let es = index.inheritance@;
    let ds = index.definitions@;
    lemma_quantity_at_found(qs, offset, qs.len() as int);
    lemma_reference_at_found(rs, offset, rs.len() as int);
    lemma_edge_at_found(es, offset, es.len() as int);
    lemma_definition_at_found(ds, offset, ds.len() as int);
    if let Some(j) = first_reference_at(rs, offset, rs.len() as int) {
        assert(rs[j].kind != ReferenceKind::Inheritance);
    }
}

/// A superscript digit or minus, by code point: ⁰ (U+2070), ¹ (U+00B9),
/// ² (U+00B2), ³ (U+00B3), ⁴ to ⁹ (U+2074 to U+2079) and ⁻ (U+207B).
pub open spec fn is_superscript_char(c: char) -> bool {
    let v = c as u32;
    v == 0x2070 || v == 0xB9 || v == 0xB2 || v == 0xB3 || v == 0x2074 || v == 0x2075 || v == 0x2076 || v == 0x2077
        || v == 0x2078 || v == 0x2079 || v == 0x207B
}

/// The bytes of a character outside ASCII are all 0x80 or above; an ASCII
/// character is its own single byte.
proof fn lemma_char_bytes(c: char)
    ensures
        (c as u32) < 0x80 ==> encode_scalar(c as u32).len() == 1 && encode_scalar(c as u32)[0] as u32 == c as u32,
        (c as u32) >= 0x80 ==> forall|i: int|
            0 <= i < encode_scalar(c as u32).len() ==> #[trigger] encode_scalar(c as u32)[i] >= 0x80,
{
    let v = c as u32;
    if v < 0x80 {
        assert(leading_byte_width_1(v) as u32 == v) by (bit_vector)
            requires
                v < 0x80u32,
        ;
    }
    assert(leading_byte_width_2(v) >= 0x80 && leading_byte_width_3(v) >= 0x80 && leading_byte_width_4(v) >= 0x80
        && last_continuation_byte(v) >= 0x80 && second_last_continuation_byte(v) >= 0x80
        && third_last_continuation_byte(v) >= 0x80) by (bit_vector);
}

/// The encoding of ASCII text is its characters, byte for byte.
proof fn lemma_ascii_bytes(chars: Seq<char>)
    requires
        forall|i: int| 0 <= i < chars.len() ==> (#[trigger] chars[i] as u32) < 0x80,
    ensures
        encode_utf8(chars).len() == chars.len(),
        forall|i: int| 0 <= i < chars.len() ==> encode_utf8(chars)[i] as u32 == #[trigger] chars[i] as u32,
    decreases chars.len(),
{
    if chars.len() > 0 {
        let tail = chars.drop_first();
        assert forall|i: int| 0 <= i < tail.len() implies (#[trigger] tail[i] as u32) < 0x80 by {
            assert(tail[i] == chars[i + 1]);
        }
        lemma_ascii_bytes(tail);
        lemma_char_bytes(chars[0]);
        assert((chars[0] as u32) < 0x80);
        let head = encode_scalar(chars[0] as u32);
        assert(encode_utf8(chars) == head + encode_utf8(tail));
        assert forall|i: int| 0 <= i < chars.len() implies encode_utf8(chars)[i] as u32 == #[trigger] chars[i] as u32 by {
            if i > 0 {
                assert(encode_utf8(chars)[i] == encode_utf8(tail)[i - 1]);
                assert(tail[i - 1] == chars[i]);
            }
        }
    }
}

/// A text without `^` (U+005E) has no `^` byte.
proof fn lemma_no_caret_bytes(chars: Seq<char>)
    requires
        forall|i: int| 0 <= i < chars.len() ==> (#[trigger] chars[i] as u32) != 0x5E,
    ensures
        forall|i: int| 0 <= i < encode_utf8(chars).len() ==> #[trigger] encode_utf8(chars)[i] != 94,
    decreases chars.len(),
{
    if chars.len() > 0 {
        let tail = chars.drop_first();
        assert forall|i: int| 0 <= i < tail.len() implies (#[trigger] tail[i] as u32) != 0x5E by {
            assert(tail[i] == chars[i + 1]);
        }
        lemma_no_caret_bytes(tail);
        let head = encode_scalar(chars[0] as u32);
        assert(encode_utf8(chars) == head + encode_utf8(tail));
        assert(chars[0] as u32 != 0x5E);
        lemma_char_bytes(chars[0]);
        assert forall|i: int| 0 <= i < encode_utf8(chars).len() implies #[trigger] encode_utf8(chars)[i] != 94 by {
            if i >= head.len() {
                assert(encode_utf8(chars)[i] == encode_utf8(tail)[i - head.len()]);
            } else {
                assert(encode_utf8(chars)[i] == head[i]);
            }
        }
    }
}

/// The encoding of a superscript digit or minus starts a superscript.
proof fn lemma_superscript_bytes(c: char)
    requires
        is_superscript_char(c),
    ensures
        superscript_at(encode_scalar(c as u32), 0),
{
    let v = c as u32;
    if 0x80 <= v <= 0xBF {
        assert(leading_byte_width_2(v) == 0xC2u8 && last_continuation_byte(v) as u32 == v) by (bit_vector)
            requires
                0x80u32 <= v <= 0xBFu32,
        ;
    } else {
        assert(leading_byte_width_3(v) == 0xE2u8 && second_last_continuation_byte(v) == 0x81u8
            && last_continuation_byte(v) as u32 + 0x1FC0u32 == v) by (bit_vector)
            requires
                0x2070u32 <= v <= 0x207Fu32,
        ;
    }
}

proof fn lemma_first_superscript_skips(b: Seq<u8>, i: int, p: int)
    requires
        0 <= i <= p < b.len(),
        forall|j: int| i <= j < p ==> b[j] < 0x80,
        superscript_at(b, p),
    ensures
        first_superscript(b, i) == Some(p),
    decreases p - i,
{
    if i < p {
        lemma_first_superscript_skips(b, i + 1, p);
    }
}

/// A unit written as ASCII text without `^`, then a superscript digit or
/// minus, then text without `^`, splits at that superscript: the name is the
/// text before it and the exponent starts with it.
pub proof fn lemma_unit_split_at_superscript(name: Seq<char>, c: char, rest: Seq<char>)
    requires
        forall|i: int| 0 <= i < name.len() ==> (#[trigger] name[i] as u32) < 0x80 && name[i] as u32 != 0x5E,
        is_superscript_char(c),
        forall|i: int| 0 <= i < rest.len() ==> (#[trigger] rest[i] as u32) != 0x5E,
    ensures
        unit_name(encode_utf8(name + seq![c] + rest)) == encode_utf8(name),
        unit_exponent(encode_utf8(name + seq![c] + rest)) == Some(encode_utf8(seq![c] + rest)),
{
    let e = encode_scalar(c as u32);
    crate::text::lemma_encode_concat(name + seq![c], rest);
    crate::text::lemma_encode_concat(name, seq![c]);
    crate::text::lemma_encode_concat(seq![c], rest);
    assert(seq![c].drop_first() =~= Seq::<char>::empty());
    assert(seq![c][0] == c);
    assert(encode_utf8(Seq::<char>::empty()) =~= Seq::<u8>::empty());
    assert(encode_utf8(seq![c]) =~= e);
    lemma_ascii_bytes(name);
    let pre = encode_utf8(name);
    let tail = encode_utf8(rest);
    let b = encode_utf8(name + seq![c] + rest);
    assert(b == pre + e + tail);
    lemma_superscript_bytes(c);
    lemma_char_bytes(c);
    lemma_no_caret_bytes(rest);
    let p = pre.len() as int;
    assert forall|j: int| 0 <= j < b.len() implies b[j] != 94 by {
        if j < p {
            assert(b[j] == pre[j]);
            assert(pre[j] as u32 == name[j] as u32);
        } else if j < p + e.len() {
            assert(b[j] == e[j - p]);
        } else {
            assert(b[j] == tail[j - p - e.len()]);
        }
    }
    lemma_first_byte_in(b, 0, b.len() as int, 94);
    assert forall|j: int| 0 <= j < p implies b[j] < 0x80 by {
        assert(b[j] == pre[j]);
        assert(pre[j] as u32 == name[j] as u32);
    }
    assert(superscript_at(b, p)) by {
        assert forall|k: int| 0 <= k < e.len() implies b[p + k] == e[k] by {}
    }
    lemma_first_superscript_skips(b, 0, p);
    assert(b.subrange(0, p) =~= pre);
    assert(b.subrange(p, b.len() as int) =~= e + tail);
}


/// A unit with a `^` splits at its first `^`: the name is the text before it
/// and the exponent starts with it, whatever follows.
pub proof fn lemma_unit_split_at_caret(name: Seq<char>, c: char, rest: Seq<char>)
    requires
        forall|i: int| 0 <= i < name.len() ==> (#[trigger] name[i] as u32) != 0x5E,
        c as u32 == 0x5E,
    ensures
        unit_name(encode_utf8(name + seq![c] + rest)) == encode_utf8(name),
        unit_exponent(encode_utf8(name + seq![c] + rest)) == Some(encode_utf8(seq![c] + rest)),
{
    let e = encode_scalar(c as u32);
    crate::text::lemma_encode_concat(name + seq![c], rest);
    crate::text::lemma_encode_concat(name, seq![c]);
    crate::text::lemma_encode_concat(seq![c], rest);
    assert(seq![c].drop_first() =~= Seq::<char>::empty());
    assert(seq![c][0] == c);
    assert(encode_utf8(Seq::<char>::empty()) =~= Seq::<u8>::empty());
    assert(encode_utf8(seq![c]) =~= e);
    lemma_char_bytes(c);
    lemma_no_caret_bytes(name);
    let pre = encode_utf8(name);
    let tail = encode_utf8(rest);
    let b = encode_utf8(name + seq![c] + rest);
    assert(b == pre + e + tail);
    let p = pre.len() as int;
    assert(b[p] == 94);
    assert forall|j: int| 0 <= j < p implies b[j] != 94 by {
        assert(b[j] == pre[j]);
    }
    lemma_first_byte_in(b, 0, b.len() as int, 94);
    assert(b.subrange(0, p) =~= pre);
    assert(b.subrange(p, b.len() as int) =~= e + tail);
}

} // verus!
