//! Semantic tokens, rename and quick fixes.
use vstd::prelude::*;
use vstd::string::StringSliceAdditionalSpecFns;
use vstd::utf8::*;

use crate::builder::{index_shape, located};
use crate::semantic::{
    first_byte_from, lemma_first_byte_from, Definition, DefinitionKind, InheritanceEdge,
    QuantityOccurrence, Reference, ReferenceKind, SemanticIndex,
};
use crate::paths::{path_eq, path_starts_with, pv};
use crate::text::{
    bytes_of, eq_ignore_ascii_case, eq_ignore_ascii_case_exec, is_bare_name,
    rfind_byte, spec_is_bare_name, str_eq, str_get, string_bytes,
};
use crate::semantic::split_from;
use crate::paths::{join, join_spec};
use crate::Diagnostic;
use crate::ByteRange;

verus! {

broadcast use vstd::seq_lib::group_to_multiset_ensures;

#[derive(Debug, Clone, Copy, PartialEq, Eq, Structural)]
pub enum SemanticTokenKind {
    Property,
    Table,
    Enum,
    EnumMember,
    Reference,
    Number,
    Unit,
}

#[derive(Debug, Clone, Copy, PartialEq, Eq, Structural)]
pub struct SemanticToken {
    pub range: ByteRange,
    pub kind: SemanticTokenKind,
}

#[derive(Debug, Clone, PartialEq, Eq)]
pub struct RenameTarget {
    pub range: ByteRange,
    pub placeholder: String,
}

#[derive(Debug, Clone, PartialEq, Eq)]
pub struct TextChange {
    pub range: ByteRange,
    pub new_text: String,
}

#[derive(Debug, Clone, Copy, PartialEq, Eq, Structural)]
pub enum RenameError {
    NotRenameable,
    InvalidName,
    Conflict,
}

#[derive(Debug, Clone, PartialEq, Eq)]
pub struct QuickFix {
    pub title: String,
    pub diagnostic_code: &'static str,
    pub change: TextChange,
}

// ---------------------------------------------------------------------------
// Ranges and path segments
// ---------------------------------------------------------------------------
/// `offset` lies in the half-open range.
pub open spec fn spec_contains(range: ByteRange, offset: int) -> bool {
    range.start <= offset < range.end
}

pub fn contains(range: ByteRange, offset: usize) -> (r: bool)
    ensures
        r == spec_contains(range, offset as int),
{
    range.start <= offset && offset < range.end
}

/// The two half-open ranges share a byte.
pub open spec fn spec_overlaps(left: ByteRange, right: ByteRange) -> bool {
    left.start < right.end && right.start < left.end
}

pub fn overlaps(left: ByteRange, right: ByteRange) -> (r: bool)
    ensures
        r == spec_overlaps(left, right),
{
    left.start < right.end && right.start < left.end
}

/// The last position in `b[from..x]` holding byte `c`.
pub open spec fn last_byte_in(b: Seq<u8>, from: int, x: int, c: u8) -> Option<int>
    decreases x - from,
{
    if x <= from {
        None
    } else if b[x - 1] == c {
        Some(x - 1)
    } else {
        last_byte_in(b, from, x - 1, c)
    }
}

proof fn lemma_last_byte_in(b: Seq<u8>, from: int, x: int, c: u8)
    requires
        0 <= from,
        x <= b.len(),
    ensures
        match last_byte_in(b, from, x, c) {
            Some(p) => from <= p < x && b[p] == c && forall|j: int| p < j < x ==> b[j] != c,
            None => forall|j: int| from <= j < x ==> b[j] != c,
        },
    decreases x - from,
{
    if x > from && b[x - 1] != c {
        lemma_last_byte_in(b, from, x - 1, c);
    }
}

/// `rfind` of byte `c` in `b[from..to]`, as an absolute position.
fn rfind_in_range(b: &[u8], from: usize, to: usize, c: u8) -> (r: Option<usize>)
    requires
        from <= to <= b@.len(),
    ensures
        match r {
            Some(p) => last_byte_in(b@, from as int, to as int, c) == Some(p as int) && from <= p < to,
            None => last_byte_in(b@, from as int, to as int, c) is None,
        },
{
    proof {
        lemma_last_byte_in(b@, from as int, to as int, c);
    }
    let r = rfind_byte(b, from, to, c);
    proof {
        if let Some(p) = r {
            if let Some(q) = last_byte_in(b@, from as int, to as int, c) {
                assert(q == p);
            }
        }
    }
    r
}

/// The last `::` inside `b[from..to]`.
pub open spec fn last_double_colon_in(b: Seq<u8>, from: int, to: int) -> Option<int>
    decreases to - from,
{
    if to - from < 2 {
        None
    } else if b[to - 2] == 58 && b[to - 1] == 58 {
        Some(to - 2)
    } else {
        last_double_colon_in(b, from, to - 1)
    }
}

fn last_double_colon_in_exec(b: &[u8], from: usize, to: usize) -> (r: Option<usize>)
    requires
        from <= to <= b@.len(),
    ensures
        match r {
            Some(p) => last_double_colon_in(b@, from as int, to as int) == Some(p as int) && from <= p && p + 2
                <= to,
            None => last_double_colon_in(b@, from as int, to as int) is None,
        },
{
    let mut x = to;
    while x - from >= 2
        invariant
            from <= x <= to <= b@.len(),
            last_double_colon_in(b@, from as int, to as int) == last_double_colon_in(b@, from as int, x as int),
        decreases x,
    {
        if b[x - 2] == 58 && b[x - 1] == 58 {
            return Some(x - 2);
        }
        x = x - 1;
    }
    None
}

/// The last dot-separated segment of `b[range]`.
pub open spec fn last_segment(b: Seq<u8>, range: ByteRange) -> ByteRange {
    ByteRange {
        start: match last_byte_in(b, range.start as int, range.end as int, 46) {
            Some(p) => (p + 1) as usize,
            None => range.start,
        },
        end: range.end,
    }
}

/// The range of the last `.`-separated segment of `source[range]`.
pub fn last_path_segment(source: &str, range: ByteRange) -> (r: ByteRange)
    requires
        range.start <= range.end <= source.spec_bytes().len(),
    ensures
        r == last_segment(source.spec_bytes(), range),
        range.start <= r.start <= r.end == range.end,
{
    let b = source.as_bytes();
    match rfind_in_range(b, range.start, range.end, 46) {
        Some(p) => ByteRange { start: p + 1, end: range.end },
        None => ByteRange { start: range.start, end: range.end },
    }
}

/// Where segment `k` of `b[from..to]`, split at `.`, starts.
pub open spec fn piece_start(b: Seq<u8>, from: int, to: int, k: nat) -> Option<int>
    decreases k,
{
    if k == 0 {
        Some(from)
    } else {
        match piece_start(b, from, to, (k - 1) as nat) {
            Some(s) => match first_byte_in(b, s, to, 46) {
                Some(d) => Some(d + 1),
                None => None,
            },
            None => None,
        }
    }
}

/// The first position in `b[from..to]` holding byte `c`.
pub open spec fn first_byte_in(b: Seq<u8>, from: int, to: int, c: u8) -> Option<int>
    decreases to - from,
{
    if from >= to {
        None
    } else if b[from] == c {
        Some(from)
    } else {
        first_byte_in(b, from + 1, to, c)
    }
}

pub proof fn lemma_first_byte_in(b: Seq<u8>, from: int, to: int, c: u8)
    requires
        0 <= from,
        to <= b.len(),
    ensures
        match first_byte_in(b, from, to, c) {
            Some(p) => from <= p < to && b[p] == c && forall|j: int| from <= j < p ==> b[j] != c,
            None => forall|j: int| from <= j < to ==> b[j] != c,
        },
    decreases to - from,
{
    if from < to && b[from] != c {
        lemma_first_byte_in(b, from + 1, to, c);
    }
}

pub proof fn lemma_first_byte_in_bounds(b: Seq<u8>, from: int, to: int, c: u8)
    ensures
        first_byte_in(b, from, to, c) matches Some(p) ==> from <= p < to,
    decreases to - from,
{
    if from < to && b[from] != c {
        lemma_first_byte_in_bounds(b, from + 1, to, c);
    }
}

/// The end of the segment that starts at `s`: the next `.` or `to`.
pub open spec fn piece_end(b: Seq<u8>, s: int, to: int) -> int {
    match first_byte_in(b, s, to, 46) {
        Some(d) => d,
        None => to,
    }
}

proof fn lemma_piece_start(b: Seq<u8>, from: int, to: int, k: nat)
    requires
        0 <= from <= to <= b.len(),
    ensures
        piece_start(b, from, to, k) matches Some(s) ==> from <= s <= to,
    decreases k,
{
    if k > 0 {
        lemma_piece_start(b, from, to, (k - 1) as nat);
        if let Some(s) = piece_start(b, from, to, (k - 1) as nat) {
            lemma_first_byte_in(b, s, to, 46);
        }
    }
}

fn first_byte_in_exec(b: &[u8], from: usize, to: usize, c: u8) -> (r: Option<usize>)
    requires
        from <= to <= b@.len(),
    ensures
        match r {
            Some(p) => first_byte_in(b@, from as int, to as int, c) == Some(p as int) && from <= p < to,
            None => first_byte_in(b@, from as int, to as int, c) is None,
        },
{
    let mut i = from;
    while i < to
        invariant
            from <= i <= to <= b@.len(),
            first_byte_in(b@, from as int, to as int, c) == first_byte_in(b@, i as int, to as int, c),
        decreases to - i,
    {
        if b[i] == c {
            return Some(i);
        }
        i = i + 1;
    }
    None
}

/// Segment `k` of `b[range]`, split at `.`, if there is one.
pub open spec fn segment_range(b: Seq<u8>, range: ByteRange, k: nat) -> Option<ByteRange> {
    match piece_start(b, range.start as int, range.end as int, k) {
        Some(s) => Some(ByteRange { start: s as usize, end: piece_end(b, s, range.end as int) as usize }),
        None => None,
    }
}

/// The range of segment `segment` of `source[range]`, split at `.`.
pub fn path_segment_range(source: &str, range: ByteRange, segment: usize) -> (r: Result<ByteRange, RenameError>)
    requires
        range.start <= range.end <= source.spec_bytes().len(),
    ensures
        match r {
            Ok(found) => segment_range(source.spec_bytes(), range, segment as nat) == Some(found),
            Err(e) => e == RenameError::NotRenameable && segment_range(source.spec_bytes(), range, segment as nat) is None,
        },
{
    let b = source.as_bytes();
    let ghost bs = b@;
    let mut start = range.start;
    let mut k: usize = 0;
    while k < segment
        invariant
            b@ == bs,
            bs == source.spec_bytes(),
            range.start <= start <= range.end <= bs.len(),
            k <= segment,
            piece_start(bs, range.start as int, range.end as int, k as nat) == Some(start as int),
        decreases segment - k,
    {
        match first_byte_in_exec(b, start, range.end, 46) {
            Some(d) => {
                start = d + 1;
            },
            None => {
                proof {
                    assert(piece_start(bs, range.start as int, range.end as int, (k + 1) as nat) is None);
                    lemma_piece_none(bs, range.start as int, range.end as int, (k + 1) as nat, segment as nat);
                }
                return Err(RenameError::NotRenameable);
            },
        }
        k = k + 1;
    }
    let end = match first_byte_in_exec(b, start, range.end, 46) {
        Some(d) => d,
        None => range.end,
    };
    Ok(ByteRange { start, end })
}

/// Once a segment is missing, so are all later ones.
proof fn lemma_piece_none(b: Seq<u8>, from: int, to: int, k: nat, m: nat)
    requires
        piece_start(b, from, to, k) is None,
        k <= m,
    ensures
        piece_start(b, from, to, m) is None,
    decreases m - k,
{
    if k < m {
        lemma_piece_none(b, from, to, k, (m - 1) as nat);
    }
}

/// The index of the segment of `b[range]` that holds `offset`, searching
/// from segment `k`, which starts at `s`.
pub open spec fn segment_holding(b: Seq<u8>, range: ByteRange, offset: int, k: nat, s: int) -> Option<nat>
    decreases range.end - s,
{
    if s > range.end {
        None
    } else {
        let e = piece_end(b, s, range.end as int);
        if s <= offset < e {
            Some(k)
        } else if e < range.end {
            proof {
                lemma_first_byte_in_bounds(b, s, range.end as int, 46);
            }
            segment_holding(b, range, offset, k + 1, e + 1)
        } else {
            None
        }
    }
}

/// The index of the `.`-separated segment of `source[range]` that holds `offset`.
pub fn path_segment_at_offset(source: &str, range: ByteRange, offset: usize) -> (r: Option<usize>)
    requires
        range.start <= range.end <= source.spec_bytes().len(),
    ensures
        match r {
            Some(k) => segment_holding(source.spec_bytes(), range, offset as int, 0, range.start as int) == Some(
                k as nat,
            ),
            None => segment_holding(source.spec_bytes(), range, offset as int, 0, range.start as int) is None,
        },
{
    let b = source.as_bytes();
    let ghost bs = b@;
    let mut start = range.start;
    let mut k: usize = 0;
    loop
        invariant
            b@ == bs,
            bs == source.spec_bytes(),
            range.start <= start <= range.end <= bs.len(),
            k <= start - range.start,
            segment_holding(bs, range, offset as int, 0, range.start as int) == segment_holding(
                bs,
                range,
                offset as int,
                k as nat,
                start as int,
            ),
        decreases range.end - start,
    {
        let end = match first_byte_in_exec(b, start, range.end, 46) {
            Some(d) => d,
            None => range.end,
        };
        if start <= offset && offset < end {
            return Some(k);
        }
        if end < range.end {
            proof {
                lemma_first_byte_in(bs, start as int, range.end as int, 46);
            }
            start = end + 1;
            k = k + 1;
        } else {
            return None;
        }
    }
}

// ---------------------------------------------------------------------------
// Semantic tokens
// ---------------------------------------------------------------------------
pub open spec fn definition_token_kind(kind: DefinitionKind) -> SemanticTokenKind {
    match kind {
        DefinitionKind::Key => SemanticTokenKind::Property,
        DefinitionKind::Table | DefinitionKind::ArrayOfTables => SemanticTokenKind::Table,
        DefinitionKind::Enum => SemanticTokenKind::Enum,
        DefinitionKind::EnumMember => SemanticTokenKind::EnumMember,
    }
}

pub open spec fn token(start: int, end: int, kind: SemanticTokenKind) -> SemanticToken {
    SemanticToken { range: ByteRange { start: start as usize, end: end as usize }, kind }
}

/// The token of each definition: the last segment of its name.
pub open spec fn definition_tokens(b: Seq<u8>, defs: Seq<Definition>, n: int) -> Seq<SemanticToken>
    decreases n,
{
    if n <= 0 {
        Seq::empty()
    } else {
        definition_tokens(b, defs, n - 1).push(
            SemanticToken { range: last_segment(b, defs[n - 1].selection_range), kind: definition_token_kind(defs[n - 1].kind) },
        )
    }
}

/// An enum value gives its enum and its member; a path reference gives one token.
pub open spec fn reference_token(b: Seq<u8>, r: Reference) -> Seq<SemanticToken> {
    match r.kind {
        ReferenceKind::EnumMember => match last_double_colon_in(b, r.range.start as int, r.range.end as int) {
            Some(p) => seq![
                token(r.range.start as int, p, SemanticTokenKind::Enum),
                token(p + 2, r.range.end as int, SemanticTokenKind::EnumMember),
            ],
            None => Seq::empty(),
        },
        ReferenceKind::Path => seq![SemanticToken { range: r.range, kind: SemanticTokenKind::Reference }],
        ReferenceKind::Inheritance => Seq::empty(),
    }
}

pub open spec fn reference_tokens(b: Seq<u8>, refs: Seq<Reference>, n: int) -> Seq<SemanticToken>
    decreases n,
{
    if n <= 0 {
        Seq::empty()
    } else {
        reference_tokens(b, refs, n - 1) + reference_token(b, refs[n - 1])
    }
}

pub open spec fn edge_tokens(edges: Seq<InheritanceEdge>, n: int) -> Seq<SemanticToken>
    decreases n,
{
    if n <= 0 {
        Seq::empty()
    } else {
        edge_tokens(edges, n - 1).push(SemanticToken { range: edges[n - 1].range, kind: SemanticTokenKind::Table })
    }
}

/// Where the number of an authored quantity ends: its length less that of
/// the unit, separator and super-unit, counted from its start.
pub open spec fn quantity_number_end(q: QuantityOccurrence) -> int {
    let len = q.range.end - q.range.start;
    let suffix = bytes_of(q.unit).len() + (if q.separator is Some { 1int } else { 0int }) + match q.super_unit {
        Some(u) => bytes_of(u).len() as int,
        None => 0int,
    };
    q.range.start + if len > suffix { len - suffix } else { 0 }
}

/// The first `/` or `*` in `b[from..to]`.
pub open spec fn first_unit_separator(b: Seq<u8>, from: int, to: int) -> Option<int>
    decreases to - from,
{
    if from >= to {
        None
    } else if b[from] == 47 || b[from] == 42 {
        Some(from)
    } else {
        first_unit_separator(b, from + 1, to)
    }
}

/// A quantity gives its number and one or two units.
pub open spec fn quantity_token(b: Seq<u8>, q: QuantityOccurrence) -> Seq<SemanticToken> {
    let n = quantity_number_end(q);
    let number = token(q.range.start as int, n, SemanticTokenKind::Number);
    match first_unit_separator(b, n, q.range.end as int) {
        Some(p) => seq![number, token(n, p, SemanticTokenKind::Unit), token(p + 1, q.range.end as int, SemanticTokenKind::Unit)],
        None => seq![number, token(n, q.range.end as int, SemanticTokenKind::Unit)],
    }
}

pub open spec fn quantity_tokens(b: Seq<u8>, qs: Seq<QuantityOccurrence>, n: int) -> Seq<SemanticToken>
    decreases n,
{
    if n <= 0 {
        Seq::empty()
    } else {
        quantity_tokens(b, qs, n - 1) + quantity_token(b, qs[n - 1])
    }
}

/// All candidate tokens, in the order they are produced.
pub open spec fn raw_tokens(b: Seq<u8>, index: SemanticIndex) -> Seq<SemanticToken> {
    definition_tokens(b, index.definitions@, index.definitions@.len() as int) + reference_tokens(
        b,
        index.references@,
        index.references@.len() as int,
    ) + edge_tokens(index.inheritance@, index.inheritance@.len() as int) + quantity_tokens(
        b,
        index.quantities@,
        index.quantities@.len() as int,
    )
}

/// The first of the first `n` tokens with this range.
pub open spec fn first_with_range(tokens: Seq<SemanticToken>, range: ByteRange, n: int) -> Option<SemanticToken>
    decreases n,
{
    if n <= 0 {
        None
    } else {
        match first_with_range(tokens, range, n - 1) {
            Some(t) => Some(t),
            None => if tokens[n - 1].range == range {
                Some(tokens[n - 1])
            } else {
                None
            },
        }
    }
}

pub open spec fn range_lt(a: ByteRange, b: ByteRange) -> bool {
    a.start < b.start || (a.start == b.start && a.end < b.end)
}

/// `r` holds, in increasing order of range, the first token of `raw` for each
/// non-empty range among its first `n` tokens.
pub open spec fn deduplicated_tokens(r: Seq<SemanticToken>, raw: Seq<SemanticToken>, n: int) -> bool {
    &&& forall|i: int, j: int| 0 <= i < j < r.len() ==> range_lt((#[trigger] r[i]).range, (#[trigger] r[j]).range)
    &&& forall|i: int|
        0 <= i < r.len() ==> (#[trigger] r[i]).range.start < r[i].range.end && first_with_range(raw, r[i].range, n)
            == Some(r[i])
    &&& forall|j: int|
        0 <= j < n && (#[trigger] raw[j]).range.start < raw[j].range.end ==> exists|i: int|
            0 <= i < r.len() && (#[trigger] r[i]).range == raw[j].range
}

/// The source slices that `semantic_tokens` takes lie on character boundaries:
/// definition names, enum values, and authored quantities with their number.
pub open spec fn tokens_sliceable(b: Seq<u8>, index: SemanticIndex) -> bool {
    &&& forall|i: int| 0 <= i < index.definitions@.len() ==> located(b, (#[trigger] index.definitions@[i]).selection_range)
    &&& forall|i: int|
        0 <= i < index.references@.len() && (#[trigger] index.references@[i]).kind == ReferenceKind::EnumMember
            ==> located(b, index.references@[i].range)
    &&& forall|i: int|
        0 <= i < index.quantities@.len() ==> located(b, (#[trigger] index.quantities@[i]).range) && is_char_boundary(
            b,
            quantity_number_end(index.quantities@[i]),
        )
}

/// Adds `t` to the sorted, deduplicated tokens unless it is empty or its range is there.
fn add_token(out: &mut Vec<SemanticToken>, t: SemanticToken, Ghost(raw): Ghost<Seq<SemanticToken>>, Ghost(n): Ghost<int>)
    requires
        0 <= n < raw.len(),
        raw[n] == t,
        deduplicated_tokens(old(out)@, raw, n),
    ensures
        deduplicated_tokens(final(out)@, raw, n + 1),
{
    let ghost before = out@;
    proof {
        assert forall|i: int| 0 <= i < before.len() implies first_with_range(raw, (#[trigger] before[i]).range, n + 1)
            == Some(before[i]) by {}
    }
    if t.range.start >= t.range.end {
        return;
    }
    let mut pos: usize = 0;
    while pos < out.len() && (out[pos].range.start < t.range.start || (out[pos].range.start == t.range.start
        && out[pos].range.end < t.range.end))
        invariant
            out@ == before,
            pos <= before.len(),
            forall|k: int| 0 <= k < pos ==> range_lt((#[trigger] before[k]).range, t.range),
        decreases before.len() - pos,
    {
        pos = pos + 1;
    }
    if pos < out.len() && out[pos].range == t.range {
        proof {
            assert forall|j: int|
                0 <= j < n + 1 && (#[trigger] raw[j]).range.start < raw[j].range.end implies exists|i: int|
                0 <= i < before.len() && (#[trigger] before[i]).range == raw[j].range by {
                if j == n {
                    assert(before[pos as int].range == raw[j].range);
                }
            }
        }
        return;
    }
    proof {
        assert forall|i: int| 0 <= i < before.len() implies (#[trigger] before[i]).range != t.range by {
            if i < pos {
                assert(range_lt(before[i].range, t.range));
            } else if i > pos {
                assert(range_lt(before[pos as int].range, before[i].range));
            }
        }
        if first_with_range(raw, t.range, n) is Some {
            lemma_first_with_range(raw, t.range, n);
            let j = choose|j: int| 0 <= j < n && raw[j].range == t.range;
            assert(raw[j].range.start < raw[j].range.end);
        }
    }
    out.insert(pos, t);
    proof {
        let after = out@;
        assert(after == before.insert(pos as int, t));
        assert forall|i: int, j: int| 0 <= i < j < after.len() implies range_lt((#[trigger] after[i]).range, (#[trigger] after[j]).range) by {
            if i < pos && j == pos {
            } else if i == pos && j > pos {
                assert(after[j] == before[j - 1]);
                if j - 1 > pos {
                    assert(range_lt(before[pos as int].range, before[j - 1].range));
                }
            } else if i < pos && j > pos {
                assert(after[j] == before[j - 1]);
            } else if i > pos {
                assert(after[i] == before[i - 1] && after[j] == before[j - 1]);
            }
        }
        assert forall|i: int| 0 <= i < after.len() implies (#[trigger] after[i]).range.start < after[i].range.end
            && first_with_range(raw, after[i].range, n + 1) == Some(after[i]) by {
            if i < pos {
                assert(after[i] == before[i]);
            } else if i > pos {
                assert(after[i] == before[i - 1]);
            }
        }
        assert forall|j: int|
            0 <= j < n + 1 && (#[trigger] raw[j]).range.start < raw[j].range.end implies exists|i: int|
            0 <= i < after.len() && (#[trigger] after[i]).range == raw[j].range by {
            if j == n {
                assert(after[pos as int].range == raw[j].range);
            } else {
                let i = choose|i: int| 0 <= i < before.len() && (#[trigger] before[i]).range == raw[j].range;
                if i < pos {
                    assert(after[i] == before[i]);
                } else {
                    assert(after[i + 1] == before[i]);
                }
            }
        }
    }
}

proof fn lemma_first_with_range(tokens: Seq<SemanticToken>, range: ByteRange, n: int)
    requires
        0 <= n <= tokens.len(),
    ensures
        first_with_range(tokens, range, n) is Some <==> exists|j: int| 0 <= j < n && tokens[j].range == range,
    decreases n,
{
    if n > 0 {
        lemma_first_with_range(tokens, range, n - 1);
        if tokens[n - 1].range == range {
            assert(exists|j: int| 0 <= j < n && tokens[j].range == range);
        }
        if exists|j: int| 0 <= j < n - 1 && tokens[j].range == range {
            let j = choose|j: int| 0 <= j < n - 1 && tokens[j].range == range;
            assert(0 <= j < n && tokens[j].range == range);
        }
    }
}

fn first_unit_separator_exec(b: &[u8], from: usize, to: usize) -> (r: Option<usize>)
    requires
        from <= to <= b@.len(),
    ensures
        match r {
            Some(p) => first_unit_separator(b@, from as int, to as int) == Some(p as int) && from <= p < to,
            None => first_unit_separator(b@, from as int, to as int) is None,
        },
{
    let mut i = from;
    while i < to
        invariant
            from <= i <= to <= b@.len(),
            first_unit_separator(b@, from as int, to as int) == first_unit_separator(b@, i as int, to as int),
        decreases to - i,
    {
        if b[i] == 47 || b[i] == 42 {
            return Some(i);
        }
        i = i + 1;
    }
    None
}

/// The candidate tokens, in the order they are produced.
fn raw_tokens_exec(source: &str, index: &SemanticIndex) -> (r: Vec<SemanticToken>)
    requires
        tokens_sliceable(source.spec_bytes(), *index),
    ensures
        r@ == raw_tokens(source.spec_bytes(), *index),
{
    let b = source.as_bytes();
    let ghost bs = b@;
    let ghost defs = index.definitions@;
    let ghost refs = index.references@;
    let ghost edges = index.inheritance@;
    let ghost qs = index.quantities@;
    let mut out: Vec<SemanticToken> = Vec::new();
    let mut i: usize = 0;
    while i < index.definitions.len()
        invariant
            b@ == bs,
            bs == source.spec_bytes(),
            tokens_sliceable(bs, *index),
            defs == index.definitions@,
            i <= defs.len(),
            out@ == definition_tokens(bs, defs, i as int),
        decreases defs.len() - i,
    {
        let d = &index.definitions[i];
        let kind = match d.kind {
            DefinitionKind::Key => SemanticTokenKind::Property,
            DefinitionKind::Table | DefinitionKind::ArrayOfTables => SemanticTokenKind::Table,
            DefinitionKind::Enum => SemanticTokenKind::Enum,
            DefinitionKind::EnumMember => SemanticTokenKind::EnumMember,
        };
        proof {
            assert(located(bs, defs[i as int].selection_range));
        }
        out.push(SemanticToken { range: last_path_segment(source, d.selection_range), kind });
        i = i + 1;
    }
    let ghost after_defs = out@;
    let mut i: usize = 0;
    while i < index.references.len()
        invariant
            b@ == bs,
            bs == source.spec_bytes(),
            tokens_sliceable(bs, *index),
            refs == index.references@,
            i <= refs.len(),
            after_defs == definition_tokens(bs, defs, defs.len() as int),
            out@ == after_defs + reference_tokens(bs, refs, i as int),
        decreases refs.len() - i,
    {
        let r = &index.references[i];
        let ghost before = out@;
        match r.kind {
            ReferenceKind::EnumMember => {
                proof {
                    assert(located(bs, refs[i as int].range));
                }
                match last_double_colon_in_exec(b, r.range.start, r.range.end) {
                    Some(p) => {
                        out.push(SemanticToken { range: ByteRange { start: r.range.start, end: p }, kind: SemanticTokenKind::Enum });
                        out.push(SemanticToken { range: ByteRange { start: p + 2, end: r.range.end }, kind: SemanticTokenKind::EnumMember });
                    },
                    None => {},
                }
            },
            ReferenceKind::Path => {
                out.push(SemanticToken { range: r.range, kind: SemanticTokenKind::Reference });
            },
            ReferenceKind::Inheritance => {},
        }
        proof {
            assert(out@ =~= before + reference_token(bs, refs[i as int]));
            assert(after_defs + reference_tokens(bs, refs, i + 1) =~= after_defs + reference_tokens(bs, refs, i as int)
                + reference_token(bs, refs[i as int]));
        }
        i = i + 1;
    }
    let ghost after_refs = out@;
    let mut i: usize = 0;
    while i < index.inheritance.len()
        invariant
            edges == index.inheritance@,
            i <= edges.len(),
            out@ == after_refs + edge_tokens(edges, i as int),
        decreases edges.len() - i,
    {
        out.push(SemanticToken { range: index.inheritance[i].range, kind: SemanticTokenKind::Table });
        proof {
            assert(out@ =~= after_refs + edge_tokens(edges, i + 1));
        }
        i = i + 1;
    }
    let ghost after_edges = out@;
    let mut i: usize = 0;
    while i < index.quantities.len()
        invariant
            b@ == bs,
            bs == source.spec_bytes(),
            tokens_sliceable(bs, *index),
            qs == index.quantities@,
            i <= qs.len(),
            out@ == after_edges + quantity_tokens(bs, qs, i as int),
        decreases qs.len() - i,
    {
        let q = &index.quantities[i];
        let ghost before = out@;
        proof {
            assert(located(bs, qs[i as int].range));
        }
        let authored_len = q.range.end - q.range.start;
        let sep_len: usize = if q.separator.is_some() { 1 } else { 0 };
        let super_len: usize = match &q.super_unit {
            Some(u) => crate::text::string_bytes(u).len(),
            None => 0,
        };
        let number_len = authored_len.saturating_sub(crate::text::string_bytes(&q.unit).len()).saturating_sub(sep_len).saturating_sub(
            super_len,
        );
        let number_end = q.range.start + number_len;
        proof {
            assert(number_end == quantity_number_end(qs[i as int]));
        }
        out.push(SemanticToken { range: ByteRange { start: q.range.start, end: number_end }, kind: SemanticTokenKind::Number });
        match first_unit_separator_exec(b, number_end, q.range.end) {
            Some(p) => {
                out.push(SemanticToken { range: ByteRange { start: number_end, end: p }, kind: SemanticTokenKind::Unit });
                out.push(SemanticToken { range: ByteRange { start: p + 1, end: q.range.end }, kind: SemanticTokenKind::Unit });
            },
            None => {
                out.push(SemanticToken { range: ByteRange { start: number_end, end: q.range.end }, kind: SemanticTokenKind::Unit });
            },
        }
        proof {
            assert(out@ =~= before + quantity_token(bs, qs[i as int]));
            assert(after_edges + quantity_tokens(bs, qs, i + 1) =~= after_edges + quantity_tokens(bs, qs, i as int)
                + quantity_token(bs, qs[i as int]));
        }
        i = i + 1;
    }
    out
}

/// Semantic tokens for the index: definition names, enum values (enum and
/// member), path references, inheritance parents, and quantities (number and
/// units). Empty ranges are dropped; of tokens with the same range the first
/// is kept; the result is ordered by range.
pub fn semantic_tokens(source: &str, index: &SemanticIndex) -> (r: Vec<SemanticToken>)
    requires
        tokens_sliceable(source.spec_bytes(), *index),
    ensures
        deduplicated_tokens(r@, raw_tokens(source.spec_bytes(), *index), raw_tokens(source.spec_bytes(), *index).len() as int),
{
    let raw = raw_tokens_exec(source, index);
    let mut out: Vec<SemanticToken> = Vec::new();
    let mut j: usize = 0;
    while j < raw.len()
        invariant
            j <= raw@.len(),
            deduplicated_tokens(out@, raw@, j as int),
        decreases raw@.len() - j,
    {
        add_token(&mut out, raw[j], Ghost(raw@), Ghost(j as int));
        j = j + 1;
    }
    out
}

// ---------------------------------------------------------------------------
// Rename
// ---------------------------------------------------------------------------
/// Every range of the index lies in the text on character boundaries:
/// definition names, references and inheritance parents.
pub open spec fn index_located(b: Seq<u8>, index: SemanticIndex) -> bool {
    &&& forall|i: int| 0 <= i < index.definitions@.len() ==> located(b, (#[trigger] index.definitions@[i]).selection_range)
    &&& forall|i: int| 0 <= i < index.references@.len() ==> located(b, (#[trigger] index.references@[i]).range)
    &&& forall|i: int| 0 <= i < index.inheritance@.len() ==> located(b, (#[trigger] index.inheritance@[i]).range)
}

/// The ranges are located, and the segment of a path reference under
/// `offset` is one of its target's segments.
pub open spec fn rename_sliceable(b: Seq<u8>, index: SemanticIndex, offset: int) -> bool {
    &&& index_located(b, index)
    &&& forall|j: int|
        0 <= j < index.references@.len() && (#[trigger] index.references@[j]).kind != ReferenceKind::EnumMember ==> (
        segment_holding(b, index.references@[j].range, offset, 0, index.references@[j].range.start as int) matches Some(k)
            ==> k < index.references@[j].target_path@.len())
}

/// The first definition whose name range holds `offset`.
pub open spec fn first_definition_at(defs: Seq<Definition>, offset: int, n: int) -> Option<int>
    decreases n,
{
    if n <= 0 {
        None
    } else {
        match first_definition_at(defs, offset, n - 1) {
            Some(i) => Some(i),
            None => if spec_contains(defs[n - 1].selection_range, offset) {
                Some(n - 1)
            } else {
                None
            },
        }
    }
}

/// The first reference whose range holds `offset`.
pub open spec fn first_reference_at(refs: Seq<Reference>, offset: int, n: int) -> Option<int>
    decreases n,
{
    if n <= 0 {
        None
    } else {
        match first_reference_at(refs, offset, n - 1) {
            Some(i) => Some(i),
            None => if spec_contains(refs[n - 1].range, offset) {
                Some(n - 1)
            } else {
                None
            },
        }
    }
}

/// The first inheritance edge whose parent range holds `offset`.
pub open spec fn first_edge_at(edges: Seq<InheritanceEdge>, offset: int, n: int) -> Option<int>
    decreases n,
{
    if n <= 0 {
        None
    } else {
        match first_edge_at(edges, offset, n - 1) {
            Some(i) => Some(i),
            None => if spec_contains(edges[n - 1].range, offset) {
                Some(n - 1)
            } else {
                None
            },
        }
    }
}

/// The first definition of kind `kind` with path `path`.
pub open spec fn first_definition_of(defs: Seq<Definition>, path: Seq<Seq<char>>, kind: DefinitionKind, n: int) -> Option<int>
    decreases n,
{
    if n <= 0 {
        None
    } else {
        match first_definition_of(defs, path, kind, n - 1) {
            Some(i) => Some(i),
            None => if defs[n - 1].kind == kind && pv(defs[n - 1].path@) == path {
                Some(n - 1)
            } else {
                None
            },
        }
    }
}

/// The enum part of an enum value's range: up to its last `::`.
pub open spec fn enum_part_range(b: Seq<u8>, r: ByteRange) -> Option<ByteRange> {
    match last_double_colon_in(b, r.start as int, r.end as int) {
        Some(p) => Some(ByteRange { start: r.start, end: p as usize }),
        None => None,
    }
}

/// The position of the definition at `offset`: a definition name, else the
/// symbol under the cursor in a reference (the enum of an enum value, or the
/// key or table that the path segment names), else the parent of an
/// inheritance edge.
pub open spec fn spec_rename_definition(b: Seq<u8>, index: SemanticIndex, offset: int) -> Option<int> {
    let defs = index.definitions@;
    let refs = index.references@;
    match first_definition_at(defs, offset, defs.len() as int) {
        Some(i) => Some(i),
        None => match first_reference_at(refs, offset, refs.len() as int) {
            Some(j) => {
                let r = refs[j];
                if r.kind == ReferenceKind::EnumMember {
                    match enum_part_range(b, r.range) {
                        None => None,
                        Some(enum_range) => if !spec_contains(last_segment(b, enum_range), offset) {
                            None
                        } else {
                            let n = r.target_path@.len();
                            first_definition_of(
                                defs,
                                pv(r.target_path@).subrange(0, if n > 0 { n - 1 } else { 0 }),
                                DefinitionKind::Enum,
                                defs.len() as int,
                            )
                        },
                    }
                } else {
                    match segment_holding(b, r.range, offset, 0, r.range.start as int) {
                        None => None,
                        Some(k) => first_definition_of(
                            defs,
                            pv(r.target_path@).subrange(0, k + 1 as int),
                            if k + 1 == r.target_path@.len() {
                                DefinitionKind::Key
                            } else {
                                DefinitionKind::Table
                            },
                            defs.len() as int,
                        ),
                    }
                }
            },
            None => match first_edge_at(index.inheritance@, offset, index.inheritance@.len() as int) {
                Some(e) => match index.inheritance@[e].parent {
                    Some(id) => if id.0 < defs.len() {
                        Some(id.0 as int)
                    } else {
                        None
                    },
                    None => None,
                },
                None => None,
            },
        },
    }
}

pub fn first_definition_at_exec(defs: &Vec<Definition>, offset: usize) -> (r: Option<usize>)
    ensures
        match r {
            Some(i) => first_definition_at(defs@, offset as int, defs@.len() as int) == Some(i as int) && i < defs@.len(),
            None => first_definition_at(defs@, offset as int, defs@.len() as int) is None,
        },
{
    let mut i: usize = 0;
    while i < defs.len()
        invariant
            i <= defs@.len(),
            first_definition_at(defs@, offset as int, i as int) is None,
        decreases defs@.len() - i,
    {
        if contains(defs[i].selection_range, offset) {
            proof {
                lemma_first_definition_at_stable(defs@, offset as int, i + 1, defs@.len() as int);
            }
            return Some(i);
        }
        i = i + 1;
    }
    None
}

proof fn lemma_first_definition_at_stable(defs: Seq<Definition>, offset: int, n: int, m: int)
    requires
        first_definition_at(defs, offset, n) is Some,
        n <= m,
    ensures
        first_definition_at(defs, offset, m) == first_definition_at(defs, offset, n),
    decreases m - n,
{
    if n < m {
        lemma_first_definition_at_stable(defs, offset, n, m - 1);
    }
}

pub fn first_reference_at_exec(refs: &Vec<Reference>, offset: usize) -> (r: Option<usize>)
    ensures
        match r {
            Some(i) => first_reference_at(refs@, offset as int, refs@.len() as int) == Some(i as int) && i < refs@.len(),
            None => first_reference_at(refs@, offset as int, refs@.len() as int) is None,
        },
{
    let mut i: usize = 0;
    while i < refs.len()
        invariant
            i <= refs@.len(),
            first_reference_at(refs@, offset as int, i as int) is None,
        decreases refs@.len() - i,
    {
        if contains(refs[i].range, offset) {
            proof {
                lemma_first_reference_at_stable(refs@, offset as int, i + 1, refs@.len() as int);
            }
            return Some(i);
        }
        i = i + 1;
    }
    None
}

proof fn lemma_first_reference_at_stable(refs: Seq<Reference>, offset: int, n: int, m: int)
    requires
        first_reference_at(refs, offset, n) is Some,
        n <= m,
    ensures
        first_reference_at(refs, offset, m) == first_reference_at(refs, offset, n),
    decreases m - n,
{
    if n < m {
        lemma_first_reference_at_stable(refs, offset, n, m - 1);
    }
}

pub fn first_edge_at_exec(edges: &Vec<InheritanceEdge>, offset: usize) -> (r: Option<usize>)
    ensures
        match r {
            Some(i) => first_edge_at(edges@, offset as int, edges@.len() as int) == Some(i as int) && i < edges@.len(),
            None => first_edge_at(edges@, offset as int, edges@.len() as int) is None,
        },
{
    let mut i: usize = 0;
    while i < edges.len()
        invariant
            i <= edges@.len(),
            first_edge_at(edges@, offset as int, i as int) is None,
        decreases edges@.len() - i,
    {
        if contains(edges[i].range, offset) {
            proof {
                lemma_first_edge_at_stable(edges@, offset as int, i + 1, edges@.len() as int);
            }
            return Some(i);
        }
        i = i + 1;
    }
    None
}

proof fn lemma_first_edge_at_stable(edges: Seq<InheritanceEdge>, offset: int, n: int, m: int)
    requires
        first_edge_at(edges, offset, n) is Some,
        n <= m,
    ensures
        first_edge_at(edges, offset, m) == first_edge_at(edges, offset, n),
    decreases m - n,
{
    if n < m {
        lemma_first_edge_at_stable(edges, offset, n, m - 1);
    }
}

fn first_definition_of_exec(defs: &Vec<Definition>, path: &[String], kind: DefinitionKind) -> (r: Option<usize>)
    ensures
        match r {
            Some(i) => first_definition_of(defs@, pv(path@), kind, defs@.len() as int) == Some(i as int) && i < defs@.len(),
            None => first_definition_of(defs@, pv(path@), kind, defs@.len() as int) is None,
        },
{
    let mut i: usize = 0;
    while i < defs.len()
        invariant
            i <= defs@.len(),
            first_definition_of(defs@, pv(path@), kind, i as int) is None,
        decreases defs@.len() - i,
    {
        if defs[i].kind == kind && path_eq(defs[i].path.as_slice(), path) {
            proof {
                lemma_first_definition_of_stable(defs@, pv(path@), kind, i + 1, defs@.len() as int);
            }
            return Some(i);
        }
        i = i + 1;
    }
    None
}

proof fn lemma_first_definition_of_stable(defs: Seq<Definition>, path: Seq<Seq<char>>, kind: DefinitionKind, n: int, m: int)
    requires
        first_definition_of(defs, path, kind, n) is Some,
        n <= m,
    ensures
        first_definition_of(defs, path, kind, m) == first_definition_of(defs, path, kind, n),
    decreases m - n,
{
    if n < m {
        lemma_first_definition_of_stable(defs, path, kind, n, m - 1);
    }
}

/// The position of the definition that a rename at `offset` renames.
fn rename_definition(source: &str, index: &SemanticIndex, offset: usize) -> (r: Option<usize>)
    requires
        rename_sliceable(source.spec_bytes(), *index, offset as int),
    ensures
        match r {
            Some(i) => spec_rename_definition(source.spec_bytes(), *index, offset as int) == Some(i as int) && i
                < index.definitions@.len(),
            None => spec_rename_definition(source.spec_bytes(), *index, offset as int) is None,
        },
{
    let b = source.as_bytes();
    if let Some(i) = first_definition_at_exec(&index.definitions, offset) {
        return Some(i);
    }
    if let Some(j) = first_reference_at_exec(&index.references, offset) {
        let reference = &index.references[j];
        proof {
            assert(located(source.spec_bytes(), index.references@[j as int].range));
        }
        if reference.kind == ReferenceKind::EnumMember {
            let separator = match last_double_colon_in_exec(b, reference.range.start, reference.range.end) {
                Some(p) => p,
                None => return None,
            };
            let enum_range = ByteRange { start: reference.range.start, end: separator };
            let name_range = last_path_segment(source, enum_range);
            if !contains(name_range, offset) {
                return None;
            }
            let n = reference.target_path.len();
            let enum_path = crate::paths::path_prefix(reference.target_path.as_slice(), if n > 0 { n - 1 } else { 0 });
            proof {
                assert(pv(enum_path@) =~= pv(reference.target_path@).subrange(0, if n > 0 { n - 1 } else { 0 }));
            }
            return first_definition_of_exec(&index.definitions, enum_path.as_slice(), DefinitionKind::Enum);
        }
        let segment = match path_segment_at_offset(source, reference.range, offset) {
            Some(k) => k,
            None => return None,
        };
        proof {
            assert(index.references@[j as int].kind != ReferenceKind::EnumMember);
            assert(segment < reference.target_path@.len());
        }
        let target_len = reference.target_path.len();
        assert(segment < target_len);
        let target_path = crate::paths::path_prefix(reference.target_path.as_slice(), segment + 1);
        proof {
            assert(pv(target_path@) =~= pv(reference.target_path@).subrange(0, segment + 1));
        }
        let kind = if segment + 1 == reference.target_path.len() {
            DefinitionKind::Key
        } else {
            DefinitionKind::Table
        };
        return first_definition_of_exec(&index.definitions, target_path.as_slice(), kind);
    }
    match first_edge_at_exec(&index.inheritance, offset) {
        Some(e) => match index.inheritance[e].parent {
            Some(id) => if id.0 < index.definitions.len() {
                Some(id.0)
            } else {
                None
            },
            None => None,
        },
        None => None,
    }
}

/// The declaration name of a definition: the last segment of its name range,
/// without the `[]` that marks an enum.
pub open spec fn declaration_range(b: Seq<u8>, d: Definition) -> ByteRange {
    let r = last_segment(b, d.selection_range);
    if r.start + 2 <= r.end && b[r.end - 2] == 91 && b[r.end - 1] == 93 {
        ByteRange { start: r.start, end: (r.end - 2) as usize }
    } else {
        r
    }
}

fn declaration_name_range(source: &str, definition: &Definition) -> (r: ByteRange)
    requires
        definition.selection_range.start <= definition.selection_range.end <= source.spec_bytes().len(),
    ensures
        r == declaration_range(source.spec_bytes(), *definition),
{
    let b = source.as_bytes();
    let r = last_path_segment(source, definition.selection_range);
    if r.end - r.start >= 2 && b[r.end - 2] == 91 && b[r.end - 1] == 93 {
        ByteRange { start: r.start, end: r.end - 2 }
    } else {
        r
    }
}

/// The occurrence of definition `d` at `offset` whose text a rename replaces:
/// its declaration name; in a reference, the key's last segment, the enum's
/// last segment, or the table's segment; in an inheritance edge, the table's
/// last segment.
pub open spec fn occurrence_range(b: Seq<u8>, index: SemanticIndex, offset: int, d: Definition) -> Option<ByteRange> {
    if spec_contains(d.selection_range, offset) {
        Some(declaration_range(b, d))
    } else {
        match first_reference_at(index.references@, offset, index.references@.len() as int) {
            Some(j) => {
                let r = index.references@[j];
                match d.kind {
                    DefinitionKind::Key => Some(last_segment(b, r.range)),
                    DefinitionKind::Enum => match enum_part_range(b, r.range) {
                        Some(e) => Some(last_segment(b, e)),
                        None => None,
                    },
                    DefinitionKind::Table => segment_range(
                        b,
                        r.range,
                        if d.path@.len() > 0 { (d.path@.len() - 1) as nat } else { 0 },
                    ),
                    _ => None,
                }
            },
            None => match first_edge_at(index.inheritance@, offset, index.inheritance@.len() as int) {
                Some(e) => if d.kind == DefinitionKind::Table {
                    Some(last_segment(b, index.inheritance@[e].range))
                } else {
                    None
                },
                None => None,
            },
        }
    }
}

fn rename_occurrence_range(source: &str, index: &SemanticIndex, offset: usize, definition: &Definition) -> (r: Option<ByteRange>)
    requires
        index_located(source.spec_bytes(), *index),
        located(source.spec_bytes(), definition.selection_range),
    ensures
        r == occurrence_range(source.spec_bytes(), *index, offset as int, *definition),
{
    let b = source.as_bytes();
    if contains(definition.selection_range, offset) {
        return Some(declaration_name_range(source, definition));
    }
    if let Some(j) = first_reference_at_exec(&index.references, offset) {
        let reference = &index.references[j];
        proof {
            assert(located(source.spec_bytes(), index.references@[j as int].range));
        }
        return match definition.kind {
            DefinitionKind::Key => Some(last_path_segment(source, reference.range)),
            DefinitionKind::Enum => match last_double_colon_in_exec(b, reference.range.start, reference.range.end) {
                Some(p) => Some(last_path_segment(source, ByteRange { start: reference.range.start, end: p })),
                None => None,
            },
            DefinitionKind::Table => {
                let n = definition.path.len();
                match path_segment_range(source, reference.range, if n > 0 { n - 1 } else { 0 }) {
                    Ok(range) => Some(range),
                    Err(_) => None,
                }
            },
            _ => None,
        };
    }
    match first_edge_at_exec(&index.inheritance, offset) {
        Some(e) => {
            proof {
                assert(located(source.spec_bytes(), index.inheritance@[e as int].range));
            }
            if definition.kind == DefinitionKind::Table {
                Some(last_path_segment(source, index.inheritance[e].range))
            } else {
                None
            }
        },
        None => None,
    }
}

/// A renameable kind: a key, a standard table or an enum.
pub open spec fn renameable_kind(kind: DefinitionKind) -> bool {
    kind == DefinitionKind::Key || kind == DefinitionKind::Table || kind == DefinitionKind::Enum
}

/// The text of `b[r]` is a bare name.
pub open spec fn bare_name_at(b: Seq<u8>, r: ByteRange) -> bool {
    located(b, r) && spec_is_bare_name(b.subrange(r.start as int, r.end as int))
}

/// What `prepare_rename` returns: the occurrence under the cursor of a
/// renameable definition, when its text is a bare name.
pub open spec fn spec_prepare_rename(b: Seq<u8>, index: SemanticIndex, offset: int) -> Option<ByteRange> {
    match spec_rename_definition(b, index, offset) {
        None => None,
        Some(i) => {
            let d = index.definitions@[i];
            if !renameable_kind(d.kind) {
                None
            } else {
                match occurrence_range(b, index, offset, d) {
                    Some(range) => if spec_contains(range, offset) && bare_name_at(b, range) {
                        Some(range)
                    } else {
                        None
                    },
                    None => None,
                }
            }
        },
    }
}

fn bare_name_at_exec(source: &str, range: ByteRange) -> (r: bool)
    ensures
        r == bare_name_at(source.spec_bytes(), range),
{
    match str_get(source, range.start, range.end) {
        Some(text) => is_bare_name(text),
        None => false,
    }
}

/// The range a rename at `offset` would replace, with its current text.
pub fn prepare_rename(source: &str, index: &SemanticIndex, offset: usize) -> (r: Option<RenameTarget>)
    requires
        rename_sliceable(source.spec_bytes(), *index, offset as int),
    ensures
        match r {
            Some(t) => spec_prepare_rename(source.spec_bytes(), *index, offset as int) == Some(t.range) && bytes_of(
                t.placeholder,
            ) == source.spec_bytes().subrange(t.range.start as int, t.range.end as int),
            None => spec_prepare_rename(source.spec_bytes(), *index, offset as int) is None,
        },
{
    let i = match rename_definition(source, index, offset) {
        Some(i) => i,
        None => return None,
    };
    let definition = &index.definitions[i];
    if !(definition.kind == DefinitionKind::Key || definition.kind == DefinitionKind::Table
        || definition.kind == DefinitionKind::Enum) {
        return None;
    }
    proof {
        assert(located(source.spec_bytes(), index.definitions@[i as int].selection_range));
    }
    let range = match rename_occurrence_range(source, index, offset, definition) {
        Some(range) => range,
        None => return None,
    };
    if !contains(range, offset) {
        return None;
    }
    match str_get(source, range.start, range.end) {
        Some(placeholder) => if is_bare_name(placeholder) {
            let text = placeholder.to_owned();
            proof {
                assert(text@ == placeholder@);
            }
            Some(RenameTarget { range, placeholder: text })
        } else {
            None
        },
        None => None,
    }
}

/// `o` with `x` appended, failing when either failed.
pub open spec fn opt_push(o: Option<Seq<ByteRange>>, x: Option<ByteRange>) -> Option<Seq<ByteRange>> {
    match (o, x) {
        (Some(rs), Some(r)) => Some(rs.push(r)),
        _ => None,
    }
}

/// For a key: the last segment of each reference to it.
pub open spec fn key_use_ranges(b: Seq<u8>, refs: Seq<Reference>, id: crate::semantic::DefinitionId, n: int) -> Seq<ByteRange>
    decreases n,
{
    if n <= 0 {
        Seq::empty()
    } else if refs[n - 1].target == Some(id) {
        key_use_ranges(b, refs, id, n - 1).push(last_segment(b, refs[n - 1].range))
    } else {
        key_use_ranges(b, refs, id, n - 1)
    }
}

/// For an enum: the last segment of the enum part of each of its values.
pub open spec fn enum_use_ranges(b: Seq<u8>, refs: Seq<Reference>, path: Seq<Seq<char>>, n: int) -> Option<Seq<ByteRange>>
    decreases n,
{
    if n <= 0 {
        Some(Seq::empty())
    } else {
        let rest = enum_use_ranges(b, refs, path, n - 1);
        let r = refs[n - 1];
        if r.kind == ReferenceKind::EnumMember && path.is_prefix_of(pv(r.target_path@)) {
            opt_push(
                rest,
                match enum_part_range(b, r.range) {
                    Some(e) => Some(last_segment(b, e)),
                    None => None,
                },
            )
        } else {
            rest
        }
    }
}

/// For a table: its segment in each reference below it.
pub open spec fn table_reference_ranges(b: Seq<u8>, refs: Seq<Reference>, path: Seq<Seq<char>>, segment: nat, n: int) -> Option<Seq<ByteRange>>
    decreases n,
{
    if n <= 0 {
        Some(Seq::empty())
    } else {
        let rest = table_reference_ranges(b, refs, path, segment, n - 1);
        let r = refs[n - 1];
        if path.is_prefix_of(pv(r.target_path@)) {
            let range = if r.kind == ReferenceKind::EnumMember {
                enum_part_range(b, r.range)
            } else {
                Some(r.range)
            };
            opt_push(
                rest,
                match range {
                    Some(range) => segment_range(b, range, segment),
                    None => None,
                },
            )
        } else {
            rest
        }
    }
}

/// For a table: its segment in each inheritance edge naming it or a table below it.
pub open spec fn table_edge_ranges(b: Seq<u8>, edges: Seq<InheritanceEdge>, path: Seq<Seq<char>>, segment: nat, n: int) -> Option<Seq<ByteRange>>
    decreases n,
{
    if n <= 0 {
        Some(Seq::empty())
    } else {
        let rest = table_edge_ranges(b, edges, path, segment, n - 1);
        if path.is_prefix_of(pv(edges[n - 1].parent_path@)) {
            opt_push(rest, segment_range(b, edges[n - 1].range, segment))
        } else {
            rest
        }
    }
}

/// For a table: its segment in the header of each table below it.
pub open spec fn table_child_ranges(b: Seq<u8>, defs: Seq<Definition>, path: Seq<Seq<char>>, segment: nat, n: int) -> Option<Seq<ByteRange>>
    decreases n,
{
    if n <= 0 {
        Some(Seq::empty())
    } else {
        let rest = table_child_ranges(b, defs, path, segment, n - 1);
        let d = defs[n - 1];
        if (d.kind == DefinitionKind::Table || d.kind == DefinitionKind::ArrayOfTables) && path.is_prefix_of(pv(d.path@))
            && d.path@.len() > path.len() {
            opt_push(rest, segment_range(b, d.selection_range, segment))
        } else {
            rest
        }
    }
}

pub open spec fn opt_concat(a: Option<Seq<ByteRange>>, c: Option<Seq<ByteRange>>) -> Option<Seq<ByteRange>> {
    match (a, c) {
        (Some(x), Some(y)) => Some(x + y),
        _ => None,
    }
}

/// The uses of definition `d` that a rename replaces besides its declaration.
pub open spec fn use_ranges(b: Seq<u8>, index: SemanticIndex, d: Definition) -> Option<Seq<ByteRange>> {
    let refs = index.references@;
    let segment: nat = if d.path@.len() > 0 { (d.path@.len() - 1) as nat } else { 0 };
    match d.kind {
        DefinitionKind::Key => Some(key_use_ranges(b, refs, d.id, refs.len() as int)),
        DefinitionKind::Enum => enum_use_ranges(b, refs, pv(d.path@), refs.len() as int),
        DefinitionKind::Table => opt_concat(
            opt_concat(
                table_reference_ranges(b, refs, pv(d.path@), segment, refs.len() as int),
                table_edge_ranges(b, index.inheritance@, pv(d.path@), segment, index.inheritance@.len() as int),
            ),
            table_child_ranges(b, index.definitions@, pv(d.path@), segment, index.definitions@.len() as int),
        ),
        _ => None,
    }
}

/// Another definition than `d` has path `path`.
pub open spec fn conflicts(defs: Seq<Definition>, d: Definition, path: Seq<Seq<char>>) -> bool {
    exists|j: int| 0 <= j < defs.len() && (#[trigger] defs[j]).id != d.id && pv(defs[j].path@) == path
}

/// What a rename at `offset` to `new_name` does: the error, or the ranges it
/// replaces (the declaration's last segment and the uses).
pub open spec fn spec_rename(b: Seq<u8>, index: SemanticIndex, offset: int, new_name: Seq<char>) -> Result<Seq<ByteRange>, RenameError> {
    if !spec_is_bare_name(encode_utf8(new_name)) {
        Err(RenameError::InvalidName)
    } else {
        match spec_rename_definition(b, index, offset) {
            None => Err(RenameError::NotRenameable),
            Some(i) => {
                let d = index.definitions@[i];
                let decl = declaration_range(b, d);
                if !renameable_kind(d.kind) {
                    Err(RenameError::NotRenameable)
                } else if !(occurrence_range(b, index, offset, d) matches Some(sel) && spec_contains(sel, offset)
                    && bare_name_at(b, sel)) {
                    Err(RenameError::NotRenameable)
                } else if !bare_name_at(b, decl) || d.path@.len() == 0 {
                    Err(RenameError::NotRenameable)
                } else if conflicts(index.definitions@, d, pv(d.path@).update(d.path@.len() - 1, new_name)) {
                    Err(RenameError::Conflict)
                } else {
                    match use_ranges(b, index, d) {
                        None => Err(RenameError::NotRenameable),
                        Some(uses) => Ok(seq![decl] + uses),
                    }
                }
            }
        }
    }
}

/// The ranges of a list of changes.
pub open spec fn change_ranges(changes: Seq<TextChange>) -> Seq<ByteRange> {
    changes.map_values(|c: TextChange| c.range)
}

/// Each range starts before the next, or at the same place and ends before it.
pub open spec fn strictly_increasing(rs: Seq<ByteRange>) -> bool {
    forall|i: int, j: int| 0 <= i < j < rs.len() ==> range_lt(#[trigger] rs[i], #[trigger] rs[j])
}

/// `changes` replace each of `ranges` once by `new_name`, in increasing order.
pub open spec fn changes_for(changes: Seq<TextChange>, ranges: Seq<ByteRange>, new_name: Seq<char>) -> bool {
    &&& strictly_increasing(change_ranges(changes))
    &&& change_ranges(changes).to_set() == ranges.to_set()
    &&& forall|i: int| 0 <= i < changes.len() ==> (#[trigger] changes[i]).new_text@ == new_name
}

/// Adds `r` to the increasing list of ranges unless it is there.
pub fn add_range(out: &mut Vec<ByteRange>, r: ByteRange)
    requires
        forall|i: int, j: int| 0 <= i < j < old(out)@.len() ==> range_lt((#[trigger] old(out)@[i]), (#[trigger] old(out)@[j])),
    ensures
        forall|i: int, j: int| 0 <= i < j < final(out)@.len() ==> range_lt((#[trigger] final(out)@[i]), (#[trigger] final(out)@[j])),
        final(out)@.to_set() == old(out)@.to_set().insert(r),
{
    let ghost before = out@;
    let mut pos: usize = 0;
    while pos < out.len() && (out[pos].start < r.start || (out[pos].start == r.start && out[pos].end < r.end))
        invariant
            out@ == before,
            pos <= before.len(),
            forall|k: int| 0 <= k < pos ==> range_lt((#[trigger] before[k]), r),
        decreases before.len() - pos,
    {
        pos = pos + 1;
    }
    if pos < out.len() && out[pos] == r {
        proof {
            assert(before.to_set().insert(r) =~= before.to_set());
        }
        return;
    }
    out.insert(pos, r);
    proof {
        let after = out@;
        assert(after == before.insert(pos as int, r));
        assert forall|i: int, j: int| 0 <= i < j < after.len() implies range_lt((#[trigger] after[i]), (#[trigger] after[j])) by {
            if i == pos && j > pos {
                assert(after[j] == before[j - 1]);
                if j - 1 > pos {
                    assert(range_lt(before[pos as int], before[j - 1]));
                }
            } else if i < pos && j > pos {
                assert(after[j] == before[j - 1]);
            } else if i > pos {
                assert(after[i] == before[i - 1] && after[j] == before[j - 1]);
            }
        }
        assert forall|x: ByteRange| after.to_set().contains(x) <==> before.to_set().insert(r).contains(x) by {
            if after.to_set().contains(x) {
                let k = choose|k: int| 0 <= k < after.len() && after[k] == x;
                if k < pos {
                    assert(before[k] == x);
                } else if k > pos {
                    assert(before[k - 1] == x);
                }
            }
            if before.to_set().contains(x) && x != r {
                let k = choose|k: int| 0 <= k < before.len() && before[k] == x;
                if k < pos {
                    assert(after[k] == x);
                } else {
                    assert(after[k + 1] == x);
                }
            }
            if x == r {
                assert(after[pos as int] == r);
            }
        }
        assert(after.to_set() =~= before.to_set().insert(r));
    }
}

proof fn lemma_enum_use_none(b: Seq<u8>, refs: Seq<Reference>, path: Seq<Seq<char>>, n: int, m: int)
    requires
        enum_use_ranges(b, refs, path, n) is None,
        0 <= n <= m,
    ensures
        enum_use_ranges(b, refs, path, m) is None,
    decreases m - n,
{
    if n < m {
        lemma_enum_use_none(b, refs, path, n, m - 1);
    }
}

proof fn lemma_table_reference_none(b: Seq<u8>, refs: Seq<Reference>, path: Seq<Seq<char>>, segment: nat, n: int, m: int)
    requires
        table_reference_ranges(b, refs, path, segment, n) is None,
        0 <= n <= m,
    ensures
        table_reference_ranges(b, refs, path, segment, m) is None,
    decreases m - n,
{
    if n < m {
        lemma_table_reference_none(b, refs, path, segment, n, m - 1);
    }
}

proof fn lemma_table_edge_none(b: Seq<u8>, edges: Seq<InheritanceEdge>, path: Seq<Seq<char>>, segment: nat, n: int, m: int)
    requires
        table_edge_ranges(b, edges, path, segment, n) is None,
        0 <= n <= m,
    ensures
        table_edge_ranges(b, edges, path, segment, m) is None,
    decreases m - n,
{
    if n < m {
        lemma_table_edge_none(b, edges, path, segment, n, m - 1);
    }
}

proof fn lemma_table_child_none(b: Seq<u8>, defs: Seq<Definition>, path: Seq<Seq<char>>, segment: nat, n: int, m: int)
    requires
        table_child_ranges(b, defs, path, segment, n) is None,
        0 <= n <= m,
    ensures
        table_child_ranges(b, defs, path, segment, m) is None,
    decreases m - n,
{
    if n < m {
        lemma_table_child_none(b, defs, path, segment, n, m - 1);
    }
}

/// The uses of definition `d` that a rename replaces, or `None` when one of
/// them cannot be located.
fn collect_use_ranges(source: &str, index: &SemanticIndex, d: &Definition) -> (r: Option<Vec<ByteRange>>)
    requires
        index_located(source.spec_bytes(), *index),
    ensures
        match r {
            Some(v) => use_ranges(source.spec_bytes(), *index, *d) == Some(v@),
            None => use_ranges(source.spec_bytes(), *index, *d) is None,
        },
{
    let b = source.as_bytes();
    let ghost bs = source.spec_bytes();
    let ghost refs = index.references@;
    let ghost path = pv(d.path@);
    let mut out: Vec<ByteRange> = Vec::new();
    match d.kind {
        DefinitionKind::Key => {
            let mut i: usize = 0;
            while i < index.references.len()
                invariant
                    bs == source.spec_bytes(),
                    index_located(bs, *index),
                    refs == index.references@,
                    i <= refs.len(),
                    out@ == key_use_ranges(bs, refs, d.id, i as int),
                decreases refs.len() - i,
            {
                if index.references[i].target == Some(d.id) {
                    proof {
                        assert(located(bs, refs[i as int].range));
                    }
                    out.push(last_path_segment(source, index.references[i].range));
                }
                i = i + 1;
            }
            Some(out)
        },
        DefinitionKind::Enum => {
            let mut i: usize = 0;
            while i < index.references.len()
                invariant
                    bs == source.spec_bytes(),
                    b@ == bs,
                    index_located(bs, *index),
                    refs == index.references@,
                    path == pv(d.path@),
                    i <= refs.len(),
                    enum_use_ranges(bs, refs, path, i as int) == Some(out@),
                    d.kind == DefinitionKind::Enum,
                decreases refs.len() - i,
            {
                let r = &index.references[i];
                if r.kind == ReferenceKind::EnumMember && path_starts_with(r.target_path.as_slice(), d.path.as_slice()) {
                    proof {
                        assert(located(bs, refs[i as int].range));
                    }
                    match last_double_colon_in_exec(b, r.range.start, r.range.end) {
                        Some(p) => {
                            out.push(last_path_segment(source, ByteRange { start: r.range.start, end: p }));
                        },
                        None => {
                            proof {
                                lemma_enum_use_none(bs, refs, path, i + 1, refs.len() as int);
                            }
                            return None;
                        },
                    }
                }
                i = i + 1;
            }
            Some(out)
        },
        DefinitionKind::Table => {
            let n = d.path.len();
            let segment: usize = if n > 0 { n - 1 } else { 0 };
            let ghost seg = segment as nat;
            let ghost edges = index.inheritance@;
            let ghost defs = index.definitions@;
            let mut i: usize = 0;
            while i < index.references.len()
                invariant
                    bs == source.spec_bytes(),
                    b@ == bs,
                    index_located(bs, *index),
                    refs == index.references@,
                    path == pv(d.path@),
                    i <= refs.len(),
                    table_reference_ranges(bs, refs, path, seg, i as int) == Some(out@),
                    d.kind == DefinitionKind::Table,
                    seg == if d.path@.len() > 0 { (d.path@.len() - 1) as nat } else { 0 },
                    segment == seg,
                    edges == index.inheritance@,
                    defs == index.definitions@,
                decreases refs.len() - i,
            {
                let r = &index.references[i];
                if path_starts_with(r.target_path.as_slice(), d.path.as_slice()) {
                    proof {
                        assert(located(bs, refs[i as int].range));
                    }
                    let range = if r.kind == ReferenceKind::EnumMember {
                        match last_double_colon_in_exec(b, r.range.start, r.range.end) {
                            Some(p) => Some(ByteRange { start: r.range.start, end: p }),
                            None => None,
                        }
                    } else {
                        Some(r.range)
                    };
                    let found = match range {
                        Some(range) => match path_segment_range(source, range, segment) {
                            Ok(s) => Some(s),
                            Err(_) => None,
                        },
                        None => None,
                    };
                    proof {
                        let spec_range = if refs[i as int].kind == ReferenceKind::EnumMember {
                            enum_part_range(bs, refs[i as int].range)
                        } else {
                            Some(refs[i as int].range)
                        };
                        assert(range == spec_range);
                        assert(found == match spec_range {
                            Some(x) => segment_range(bs, x, seg),
                            None => None,
                        });
                    }
                    match found {
                        Some(s) => out.push(s),
                        None => {
                            proof {
                                lemma_table_reference_none(bs, refs, path, seg, i + 1, refs.len() as int);
                            }
                            return None;
                        },
                    }
                }
                i = i + 1;
            }
            let ghost after_refs = out@;
            let mut e: usize = 0;
            let mut edge_ranges: Vec<ByteRange> = Vec::new();
            while e < index.inheritance.len()
                invariant
                    bs == source.spec_bytes(),
                    index_located(bs, *index),
                    edges == index.inheritance@,
                    path == pv(d.path@),
                    e <= edges.len(),
                    table_edge_ranges(bs, edges, path, seg, e as int) == Some(edge_ranges@),
                    d.kind == DefinitionKind::Table,
                    seg == if d.path@.len() > 0 { (d.path@.len() - 1) as nat } else { 0 },
                    segment == seg,
                    refs == index.references@,
                    defs == index.definitions@,
                    table_reference_ranges(bs, refs, path, seg, refs.len() as int) == Some(after_refs),
                decreases edges.len() - e,
            {
                let edge = &index.inheritance[e];
                if path_starts_with(edge.parent_path.as_slice(), d.path.as_slice()) {
                    proof {
                        assert(located(bs, edges[e as int].range));
                    }
                    match path_segment_range(source, edge.range, segment) {
                        Ok(s) => edge_ranges.push(s),
                        Err(_) => {
                            proof {
                                lemma_table_edge_none(bs, edges, path, seg, e + 1, edges.len() as int);
                            }
                            return None;
                        },
                    }
                }
                e = e + 1;
            }
            let mut c: usize = 0;
            let mut child_ranges: Vec<ByteRange> = Vec::new();
            while c < index.definitions.len()
                invariant
                    bs == source.spec_bytes(),
                    index_located(bs, *index),
                    defs == index.definitions@,
                    path == pv(d.path@),
                    c <= defs.len(),
                    table_child_ranges(bs, defs, path, seg, c as int) == Some(child_ranges@),
                    d.kind == DefinitionKind::Table,
                    seg == if d.path@.len() > 0 { (d.path@.len() - 1) as nat } else { 0 },
                    segment == seg,
                    refs == index.references@,
                    edges == index.inheritance@,
                    table_reference_ranges(bs, refs, path, seg, refs.len() as int) == Some(after_refs),
                    table_edge_ranges(bs, edges, path, seg, edges.len() as int) is Some,
                decreases defs.len() - c,
            {
                let child = &index.definitions[c];
                if (child.kind == DefinitionKind::Table || child.kind == DefinitionKind::ArrayOfTables) && path_starts_with(
                    child.path.as_slice(),
                    d.path.as_slice(),
                ) && child.path.len() > d.path.len() {
                    proof {
                        assert(located(bs, defs[c as int].selection_range));
                    }
                    match path_segment_range(source, child.selection_range, segment) {
                        Ok(s) => child_ranges.push(s),
                        Err(_) => {
                            proof {
                                lemma_table_child_none(bs, defs, path, seg, c + 1, defs.len() as int);
                            }
                            return None;
                        },
                    }
                }
                c = c + 1;
            }
            out.append(&mut edge_ranges);
            out.append(&mut child_ranges);
            Some(out)
        },
        _ => None,
    }
}

/// Whether another definition than `d` has the path `path`.
fn conflicts_exec(defs: &Vec<Definition>, d: &Definition, path: &[String]) -> (r: bool)
    ensures
        r == conflicts(defs@, *d, pv(path@)),
{
    let mut j: usize = 0;
    while j < defs.len()
        invariant
            j <= defs@.len(),
            forall|k: int| 0 <= k < j ==> !((#[trigger] defs@[k]).id != d.id && pv(defs@[k].path@) == pv(path@)),
        decreases defs@.len() - j,
    {
        if defs[j].id != d.id && path_eq(defs[j].path.as_slice(), path) {
            return true;
        }
        j = j + 1;
    }
    false
}

/// Renames the key, standard table or enum at `offset` to `new_name`: its
/// declaration and every authored use, each replaced once, in order. A name
/// that is not bare is `InvalidName`; a name another definition has is
/// `Conflict`; anything else that cannot be renamed is `NotRenameable`.
pub fn rename(source: &str, index: &SemanticIndex, offset: usize, new_name: &str) -> (r: Result<Vec<TextChange>, RenameError>)
    requires
        rename_sliceable(source.spec_bytes(), *index, offset as int),
    ensures
        match spec_rename(source.spec_bytes(), *index, offset as int, new_name@) {
            Err(e) => r == Err::<Vec<TextChange>, RenameError>(e),
            Ok(ranges) => r matches Ok(changes) && changes_for(changes@, ranges, new_name@),
        },
        r matches Ok(changes) ==> (spec_rename_definition(source.spec_bytes(), *index, offset as int) matches Some(i)
            && (index.definitions@[i].kind == DefinitionKind::Key ==> key_renamed(
            source.spec_bytes(),
            *index,
            index.definitions@[i],
            change_ranges(changes@),
        ))),
{
    let ghost bs = source.spec_bytes();
    if !is_bare_name(new_name) {
        return Err(RenameError::InvalidName);
    }
    let i = match rename_definition(source, index, offset) {
        Some(i) => i,
        None => return Err(RenameError::NotRenameable),
    };
    let definition = &index.definitions[i];
    if !(definition.kind == DefinitionKind::Key || definition.kind == DefinitionKind::Table
        || definition.kind == DefinitionKind::Enum) {
        return Err(RenameError::NotRenameable);
    }
    proof {
        assert(located(bs, index.definitions@[i as int].selection_range));
    }
    let selected = match rename_occurrence_range(source, index, offset, definition) {
        Some(range) => range,
        None => return Err(RenameError::NotRenameable),
    };
    if !contains(selected, offset) || !bare_name_at_exec(source, selected) {
        return Err(RenameError::NotRenameable);
    }
    let declaration = declaration_name_range(source, definition);
    if !bare_name_at_exec(source, declaration) || definition.path.len() == 0 {
        return Err(RenameError::NotRenameable);
    }
    let mut new_path = crate::paths::clone_path(definition.path.as_slice());
    let last = new_path.len() - 1;
    new_path.set(last, new_name.to_owned());
    proof {
        assert(pv(new_path@) =~= pv(definition.path@).update(definition.path@.len() - 1, new_name@));
    }
    if conflicts_exec(&index.definitions, definition, new_path.as_slice()) {
        return Err(RenameError::Conflict);
    }
    let uses = match collect_use_ranges(source, index, definition) {
        Some(uses) => uses,
        None => return Err(RenameError::NotRenameable),
    };
    proof {
        let d = index.definitions@[i as int];
        assert(spec_rename_definition(bs, *index, offset as int) == Some(i as int));
        assert(occurrence_range(bs, *index, offset as int, d) == Some(selected));
        assert(bare_name_at(bs, selected));
        assert(bare_name_at(bs, declaration_range(bs, d)));
        assert(!conflicts(index.definitions@, d, pv(d.path@).update(d.path@.len() - 1, new_name@)));
        assert(use_ranges(bs, *index, d) == Some(uses@));
        assert(spec_rename(bs, *index, offset as int, new_name@) == Ok::<Seq<ByteRange>, RenameError>(seq![declaration] + uses@));
    }
    let mut all: Vec<ByteRange> = Vec::new();
    all.push(declaration);
    let mut rest = uses;
    let ghost uses_seq = rest@;
    all.append(&mut rest);
    let ghost ranges = all@;
    proof {
        assert(ranges =~= seq![declaration] + uses_seq);
    }
    let mut sorted: Vec<ByteRange> = Vec::new();
    let mut k: usize = 0;
    while k < all.len()
        invariant
            all@ == ranges,
            k <= ranges.len(),
            forall|x: int, y: int| 0 <= x < y < sorted@.len() ==> range_lt((#[trigger] sorted@[x]), (#[trigger] sorted@[y])),
            sorted@.to_set() == ranges.subrange(0, k as int).to_set(),
        decreases ranges.len() - k,
    {
        add_range(&mut sorted, all[k]);
        proof {
            assert(ranges.subrange(0, k + 1) =~= ranges.subrange(0, k as int).push(ranges[k as int]));
            ranges.subrange(0, k as int).lemma_push_to_set_commute(ranges[k as int]);
        }
        k = k + 1;
    }
    proof {
        assert(ranges.subrange(0, ranges.len() as int) =~= ranges);
    }
    let mut changes: Vec<TextChange> = Vec::new();
    let mut m: usize = 0;
    while m < sorted.len()
        invariant
            m <= sorted@.len(),
            changes@.len() == m,
            forall|x: int| 0 <= x < m ==> (#[trigger] changes@[x]).range == sorted@[x] && changes@[x].new_text@ == new_name@,
        decreases sorted@.len() - m,
    {
        changes.push(TextChange { range: sorted[m], new_text: new_name.to_owned() });
        m = m + 1;
    }
    proof {
        assert(change_ranges(changes@) =~= sorted@);
        lemma_key_rename_ranges(bs, *index, offset as int, new_name@);
        let d = index.definitions@[i as int];
        if d.kind == DefinitionKind::Key {
            let cr = change_ranges(changes@);
            assert forall|x: ByteRange| ranges.contains(x) implies cr.contains(x) by {
                assert(ranges.to_set().contains(x));
            }
            assert forall|x: ByteRange| cr.contains(x) implies ranges.contains(x) by {
                assert(cr.to_set().contains(x));
            }
            lemma_key_renamed_same(bs, *index, d, ranges, cr);
        }
    }
    Ok(changes)
}

/// What renaming key `d` replaces: its declaration name and the last segment
/// of every reference whose direct target is `d`, and nothing else. A
/// reference that reaches `d` only through another key is left alone.
pub open spec fn key_renamed(b: Seq<u8>, index: SemanticIndex, d: Definition, rs: Seq<ByteRange>) -> bool {
    let refs = index.references@;
    &&& rs.contains(declaration_range(b, d))
    &&& forall|k: int| 0 <= k < refs.len() && (#[trigger] refs[k]).target == Some(d.id) ==> rs.contains(
        last_segment(b, refs[k].range),
    )
    &&& forall|x: ByteRange| #[trigger] rs.contains(x) ==> x == declaration_range(b, d) || exists|k: int|
        0 <= k < refs.len() && (#[trigger] refs[k]).target == Some(d.id) && x == last_segment(b, refs[k].range)
}

proof fn lemma_key_renamed_same(b: Seq<u8>, index: SemanticIndex, d: Definition, a: Seq<ByteRange>, c: Seq<ByteRange>)
    requires
        key_renamed(b, index, d, a),
        forall|x: ByteRange| a.contains(x) ==> c.contains(x),
        forall|x: ByteRange| c.contains(x) ==> a.contains(x),
    ensures
        key_renamed(b, index, d, c),
{
    let refs = index.references@;
    assert forall|x: ByteRange| #[trigger] c.contains(x) implies x == declaration_range(b, d) || exists|k: int|
        0 <= k < refs.len() && (#[trigger] refs[k]).target == Some(d.id) && x == last_segment(b, refs[k].range) by {
        assert(a.contains(x));
    }
}

proof fn lemma_key_use_ranges(b: Seq<u8>, refs: Seq<Reference>, id: crate::semantic::DefinitionId, n: int)
    requires
        0 <= n <= refs.len(),
    ensures
        forall|k: int| 0 <= k < n && (#[trigger] refs[k]).target == Some(id) ==> key_use_ranges(b, refs, id, n).contains(
            last_segment(b, refs[k].range),
        ),
        forall|x: ByteRange| #[trigger] key_use_ranges(b, refs, id, n).contains(x) ==> exists|k: int|
            0 <= k < n && (#[trigger] refs[k]).target == Some(id) && x == last_segment(b, refs[k].range),
    decreases n,
{
    if n > 0 {
        lemma_key_use_ranges(b, refs, id, n - 1);
        let prev = key_use_ranges(b, refs, id, n - 1);
        let cur = key_use_ranges(b, refs, id, n);
        assert forall|k: int| 0 <= k < n && (#[trigger] refs[k]).target == Some(id) implies cur.contains(
            last_segment(b, refs[k].range),
        ) by {
            if k < n - 1 {
                let j = choose|j: int| 0 <= j < prev.len() && prev[j] == last_segment(b, refs[k].range);
                if refs[n - 1].target == Some(id) {
                    assert(cur[j] == prev[j]);
                }
            } else {
                assert(cur[cur.len() - 1] == last_segment(b, refs[k].range));
            }
        }
        assert forall|x: ByteRange| #[trigger] cur.contains(x) implies exists|k: int|
            0 <= k < n && (#[trigger] refs[k]).target == Some(id) && x == last_segment(b, refs[k].range) by {
            let j = choose|j: int| 0 <= j < cur.len() && cur[j] == x;
            if refs[n - 1].target == Some(id) && j == cur.len() - 1 {
                assert(refs[n - 1].target == Some(id) && x == last_segment(b, refs[n - 1].range));
            } else {
                assert(prev[j] == x);
                assert(prev.contains(x));
            }
        }
    }
}

/// Renaming a key replaces its declaration name and the last segment of each
/// reference whose direct target is the key, and nothing else: a reference
/// that only resolves to the key through another key is not edited.
pub proof fn lemma_key_rename_ranges(b: Seq<u8>, index: SemanticIndex, offset: int, new_name: Seq<char>)
    ensures
        spec_rename(b, index, offset, new_name) matches Ok(ranges) ==> (spec_rename_definition(b, index, offset) matches Some(i)
            && (index.definitions@[i].kind == DefinitionKind::Key ==> key_renamed(b, index, index.definitions@[i], ranges))),
{
    if let Ok(ranges) = spec_rename(b, index, offset, new_name) {
        let i = spec_rename_definition(b, index, offset)->Some_0;
        let d = index.definitions@[i];
        if d.kind == DefinitionKind::Key {
            let refs = index.references@;
            let uses = key_use_ranges(b, refs, d.id, refs.len() as int);
            lemma_key_use_ranges(b, refs, d.id, refs.len() as int);
            assert(ranges == seq![declaration_range(b, d)] + uses);
            assert(ranges[0] == declaration_range(b, d));
            assert forall|k: int| 0 <= k < refs.len() && (#[trigger] refs[k]).target == Some(d.id) implies ranges.contains(
                last_segment(b, refs[k].range),
            ) by {
                let j = choose|j: int| 0 <= j < uses.len() && uses[j] == last_segment(b, refs[k].range);
                assert(ranges[j + 1] == uses[j]);
            }
            assert forall|x: ByteRange| #[trigger] ranges.contains(x) implies x == declaration_range(b, d) || exists|k: int|
                0 <= k < refs.len() && (#[trigger] refs[k]).target == Some(d.id) && x == last_segment(b, refs[k].range) by {
                let j = choose|j: int| 0 <= j < ranges.len() && ranges[j] == x;
                if j > 0 {
                    assert(uses[j - 1] == x);
                    assert(uses.contains(x));
                }
            }
        }
    }
}

// ---------------------------------------------------------------------------
// Quick fixes
// ---------------------------------------------------------------------------
/// Which diagnostic a quick fix answers.
#[derive(Clone, Copy, PartialEq, Eq, Structural)]
pub enum FixKind {
    UnknownMember,
    UnknownEnum,
    UnknownTarget,
    UnknownParent,
}

/// A key path written with dots, as bytes.
pub open spec fn dotted_bytes(p: Seq<String>) -> Seq<u8> {
    encode_utf8(join_spec(pv(p), "."@))
}

/// Definition `d` is a candidate of a quick fix of kind `kind`: it matches the
/// typed text but for ASCII case.
pub open spec fn fix_candidate(kind: FixKind, d: Definition, enum_path: Seq<Seq<u8>>, typed: Seq<u8>) -> bool {
    match kind {
        FixKind::UnknownMember => {
            &&& d.kind == DefinitionKind::EnumMember
            &&& d.path@.len() == enum_path.len() + 1
            &&& forall|k: int| 0 <= k < enum_path.len() ==> bytes_of(#[trigger] d.path@[k]) == enum_path[k]
            &&& eq_ignore_ascii_case(bytes_of(d.name), typed)
        },
        FixKind::UnknownEnum => d.kind == DefinitionKind::Enum && eq_ignore_ascii_case(dotted_bytes(d.path@), typed),
        FixKind::UnknownTarget => (d.kind == DefinitionKind::Key || d.kind == DefinitionKind::Table)
            && eq_ignore_ascii_case(dotted_bytes(d.path@), typed),
        FixKind::UnknownParent => d.kind == DefinitionKind::Table && eq_ignore_ascii_case(dotted_bytes(d.path@), typed),
    }
}

/// Exactly the definition at position `i` is a candidate.
pub open spec fn only_candidate(defs: Seq<Definition>, kind: FixKind, enum_path: Seq<Seq<u8>>, typed: Seq<u8>, i: int) -> bool {
    &&& 0 <= i < defs.len()
    &&& fix_candidate(kind, defs[i], enum_path, typed)
    &&& forall|j: int| 0 <= j < defs.len() && j != i ==> !fix_candidate(kind, #[trigger] defs[j], enum_path, typed)
}

/// The position of the one candidate, if there is exactly one.
pub open spec fn unique_candidate(defs: Seq<Definition>, kind: FixKind, enum_path: Seq<Seq<u8>>, typed: Seq<u8>) -> Option<int> {
    if exists|i: int| only_candidate(defs, kind, enum_path, typed, i) {
        Some(choose|i: int| only_candidate(defs, kind, enum_path, typed, i))
    } else {
        None
    }
}

/// A correction: the range it replaces and the replacement.
pub open spec fn spec_quick_fix(b: Seq<u8>, index: SemanticIndex, d: Diagnostic) -> Option<(ByteRange, Seq<char>)> {
    let defs = index.definitions@;
    let (start, end) = (d.range.start as int, d.range.end as int);
    let typed = b.subrange(start, end);
    if !located(b, d.range) {
        None
    } else if d.code@ == "atml.enum.unknown-member"@ {
        match last_double_colon_in(b, start, end) {
            None => None,
            Some(sep) => {
                let enum_path = split_from(b.subrange(start, sep), 0, 46);
                match unique_candidate(defs, FixKind::UnknownMember, enum_path, b.subrange(sep + 2, end)) {
                    Some(i) => Some((ByteRange { start: (sep + 2) as usize, end: d.range.end }, defs[i].name@)),
                    None => None,
                }
            },
        }
    } else if d.code@ == "atml.enum.unknown-definition"@ {
        match last_double_colon_in(b, start, end) {
            None => None,
            Some(sep) => match unique_candidate(defs, FixKind::UnknownEnum, Seq::empty(), b.subrange(start, sep)) {
                Some(i) => Some((ByteRange { start: d.range.start, end: sep as usize }, join_spec(pv(defs[i].path@), "."@))),
                None => None,
            },
        }
    } else if d.code@ == "atml.reference.unknown-target"@ {
        match unique_candidate(defs, FixKind::UnknownTarget, Seq::empty(), typed) {
            Some(i) => Some((d.range, join_spec(pv(defs[i].path@), "."@))),
            None => None,
        }
    } else if d.code@ == "atml.inheritance.unknown-parent"@ {
        match unique_candidate(defs, FixKind::UnknownParent, Seq::empty(), typed) {
            Some(i) => Some((d.range, join_spec(pv(defs[i].path@), "."@))),
            None => None,
        }
    } else {
        None
    }
}

/// `fix` is the quick fix of `d` that replaces `range` by `replacement`.
pub open spec fn fix_is(fix: QuickFix, d: Diagnostic, range: ByteRange, replacement: Seq<char>) -> bool {
    &&& fix.title@ == "Change to '"@ + replacement + "'"@
    &&& fix.diagnostic_code == d.code
    &&& fix.change.range == range
    &&& fix.change.new_text@ == replacement
}

fn fix_candidate_exec(kind: FixKind, d: &Definition, enum_path: &Vec<Vec<u8>>, typed: &[u8]) -> (r: bool)
    ensures
        r == fix_candidate(kind, *d, enum_path@.map_values(|p: Vec<u8>| p@), typed@),
{
    let ghost ep = enum_path@.map_values(|p: Vec<u8>| p@);
    match kind {
        FixKind::UnknownMember => {
            if !(d.kind == DefinitionKind::EnumMember && d.path.len() > 0 && d.path.len() - 1 == enum_path.len()) {
                return false;
            }
            let mut same = true;
            let mut k: usize = 0;
            while k < enum_path.len()
                invariant
                    d.path@.len() == enum_path@.len() + 1,
                    ep == enum_path@.map_values(|p: Vec<u8>| p@),
                    k <= enum_path@.len(),
                    same == forall|m: int| 0 <= m < k ==> bytes_of(#[trigger] d.path@[m]) == ep[m],
                decreases enum_path@.len() - k,
            {
                let eq = bytes_eq(string_bytes(&d.path[k]), enum_path[k].as_slice());
                same = same && eq;
                k = k + 1;
            }
            same && eq_ignore_ascii_case_exec(string_bytes(&d.name), typed)
        },
        FixKind::UnknownEnum => d.kind == DefinitionKind::Enum && eq_ignore_ascii_case_exec(
            join(d.path.as_slice(), ".").as_str().as_bytes(),
            typed,
        ),
        FixKind::UnknownTarget => (d.kind == DefinitionKind::Key || d.kind == DefinitionKind::Table)
            && eq_ignore_ascii_case_exec(join(d.path.as_slice(), ".").as_str().as_bytes(), typed),
        FixKind::UnknownParent => d.kind == DefinitionKind::Table && eq_ignore_ascii_case_exec(
            join(d.path.as_slice(), ".").as_str().as_bytes(),
            typed,
        ),
    }
}

fn bytes_eq(a: &[u8], b: &[u8]) -> (r: bool)
    ensures
        r == (a@ == b@),
{
    if a.len() != b.len() {
        return false;
    }
    let mut q: usize = 0;
    while q < a.len()
        invariant
            a@.len() == b@.len(),
            q <= a@.len(),
            forall|t: int| 0 <= t < q ==> a@[t] == b@[t],
        decreases a@.len() - q,
    {
        if a[q] != b[q] {
            return false;
        }
        q = q + 1;
    }
    assert(a@ =~= b@);
    true
}

/// The position of the only candidate, if exactly one definition is.
fn exactly_one(defs: &Vec<Definition>, kind: FixKind, enum_path: &Vec<Vec<u8>>, typed: &[u8]) -> (r: Option<usize>)
    ensures
        match r {
            Some(i) => unique_candidate(defs@, kind, enum_path@.map_values(|p: Vec<u8>| p@), typed@) == Some(i as int),
            None => unique_candidate(defs@, kind, enum_path@.map_values(|p: Vec<u8>| p@), typed@) is None,
        },
{
    let ghost ep = enum_path@.map_values(|p: Vec<u8>| p@);
    let mut found: Option<usize> = None;
    let mut i: usize = 0;
    while i < defs.len()
        invariant
            i <= defs@.len(),
            ep == enum_path@.map_values(|p: Vec<u8>| p@),
            match found {
                Some(f) => f < i && fix_candidate(kind, defs@[f as int], ep, typed@) && forall|j: int|
                    0 <= j < i && j != f ==> !fix_candidate(kind, #[trigger] defs@[j], ep, typed@),
                None => forall|j: int| 0 <= j < i ==> !fix_candidate(kind, #[trigger] defs@[j], ep, typed@),
            },
        decreases defs@.len() - i,
    {
        if fix_candidate_exec(kind, &defs[i], enum_path, typed) {
            match found {
                Some(f) => {
                    proof {
                        assert forall|x: int| !only_candidate(defs@, kind, ep, typed@, x) by {
                            if only_candidate(defs@, kind, ep, typed@, x) {
                                if x != f as int {
                                    assert(!fix_candidate(kind, defs@[f as int], ep, typed@));
                                } else {
                                    assert(!fix_candidate(kind, defs@[i as int], ep, typed@));
                                }
                            }
                        }
                    }
                    return None;
                },
                None => {
                    found = Some(i);
                },
            }
        }
        i = i + 1;
    }
    proof {
        match found {
            Some(f) => {
                assert(only_candidate(defs@, kind, ep, typed@, f as int));
                let c = choose|x: int| only_candidate(defs@, kind, ep, typed@, x);
                if c != f as int {
                    assert(!fix_candidate(kind, defs@[c], ep, typed@));
                }
            },
            None => {
                assert forall|x: int| !only_candidate(defs@, kind, ep, typed@, x) by {
                    if 0 <= x < defs@.len() {
                        assert(!fix_candidate(kind, defs@[x], ep, typed@));
                    }
                }
            },
        }
    }
    found
}

/// The segments of `b[from..to]` split at `.`, as byte vectors.
fn split_dots(b: &[u8], from: usize, to: usize) -> (r: Vec<Vec<u8>>)
    requires
        from <= to <= b@.len(),
    ensures
        r@.map_values(|p: Vec<u8>| p@) == split_from(b@.subrange(from as int, to as int), 0, 46),
{
    let ghost t = b@.subrange(from as int, to as int);
    let mut out: Vec<Vec<u8>> = Vec::new();
    let mut start = from;
    loop
        invariant
            from <= start <= to <= b@.len(),
            t == b@.subrange(from as int, to as int),
            out@.map_values(|p: Vec<u8>| p@) + split_from(t, start - from, 46) == split_from(t, 0, 46),
        decreases to - start,
    {
        proof {
            crate::semantic::lemma_first_byte_from(t, start - from, 46);
        }
        let mut end = start;
        while end < to && b[end] != 46
            invariant
                start <= end <= to <= b@.len(),
                forall|j: int| start <= j < end ==> b@[j] != 46,
            decreases to - end,
        {
            end = end + 1;
        }
        let mut piece: Vec<u8> = Vec::new();
        let mut k = start;
        while k < end
            invariant
                start <= k <= end <= b@.len(),
                piece@ == b@.subrange(start as int, k as int),
            decreases end - k,
        {
            piece.push(b[k]);
            k = k + 1;
            assert(piece@ =~= b@.subrange(start as int, k as int));
        }
        let ghost before = out@.map_values(|p: Vec<u8>| p@);
        out.push(piece);
        proof {
            assert(t.subrange(start - from, end - from) =~= b@.subrange(start as int, end as int));
            assert(out@.map_values(|p: Vec<u8>| p@) =~= before.push(t.subrange(start - from, end - from)));
            if end < to {
                assert(t[end - from] == b@[end as int]);
                assert(crate::semantic::first_byte_from(t, start - from, 46) == Some(end - from));
            } else {
                assert(crate::semantic::first_byte_from(t, start - from, 46) is None);
            }
        }
        if end < to {
            start = end + 1;
        } else {
            proof {
                assert(out@.map_values(|p: Vec<u8>| p@) =~= split_from(t, 0, 46));
            }
            return out;
        }
    }
}

/// The correction for `diagnostic`, if there is exactly one candidate.
fn quick_fix(source: &str, index: &SemanticIndex, diagnostic: &Diagnostic) -> (r: Option<QuickFix>)
    ensures
        match spec_quick_fix(source.spec_bytes(), *index, *diagnostic) {
            Some((range, replacement)) => r matches Some(fix) && fix_is(fix, *diagnostic, range, replacement),
            None => r is None,
        },
{
    let b = source.as_bytes();
    let ghost bs = b@;
    let start = diagnostic.range.start;
    let end = diagnostic.range.end;
    if str_get(source, start, end).is_none() {
        return None;
    }
    let no_path: Vec<Vec<u8>> = Vec::new();
    proof {
        assert(no_path@.map_values(|p: Vec<u8>| p@) =~= Seq::<Seq<u8>>::empty());
    }
    let (range, replacement): (ByteRange, String) = if str_eq(diagnostic.code, "atml.enum.unknown-member") {
        let sep = match last_double_colon_in_exec(b, start, end) {
            Some(p) => p,
            None => return None,
        };
        let enum_path = split_dots(b, start, sep);
        let typed = substr_bytes(b, sep + 2, end);
        match exactly_one(&index.definitions, FixKind::UnknownMember, &enum_path, typed.as_slice()) {
            Some(i) => (ByteRange { start: sep + 2, end }, index.definitions[i].name.clone()),
            None => return None,
        }
    } else if str_eq(diagnostic.code, "atml.enum.unknown-definition") {
        let sep = match last_double_colon_in_exec(b, start, end) {
            Some(p) => p,
            None => return None,
        };
        let typed = substr_bytes(b, start, sep);
        match exactly_one(&index.definitions, FixKind::UnknownEnum, &no_path, typed.as_slice()) {
            Some(i) => (ByteRange { start, end: sep }, join(index.definitions[i].path.as_slice(), ".")),
            None => return None,
        }
    } else if str_eq(diagnostic.code, "atml.reference.unknown-target") {
        let typed = substr_bytes(b, start, end);
        match exactly_one(&index.definitions, FixKind::UnknownTarget, &no_path, typed.as_slice()) {
            Some(i) => (diagnostic.range, join(index.definitions[i].path.as_slice(), ".")),
            None => return None,
        }
    } else if str_eq(diagnostic.code, "atml.inheritance.unknown-parent") {
        let typed = substr_bytes(b, start, end);
        match exactly_one(&index.definitions, FixKind::UnknownParent, &no_path, typed.as_slice()) {
            Some(i) => (diagnostic.range, join(index.definitions[i].path.as_slice(), ".")),
            None => return None,
        }
    } else {
        return None;
    };
    let mut title = String::from_str("Change to '");
    title.append(replacement.as_str());
    title.append("'");
    Some(QuickFix {
        title,
        diagnostic_code: diagnostic.code,
        change: TextChange { range, new_text: replacement },
    })
}

/// A copy of `b[from..to]`.
fn substr_bytes(b: &[u8], from: usize, to: usize) -> (r: Vec<u8>)
    requires
        from <= to <= b@.len(),
    ensures
        r@ == b@.subrange(from as int, to as int),
{
    let mut r: Vec<u8> = Vec::new();
    let mut i = from;
    while i < to
        invariant
            from <= i <= to <= b@.len(),
            r@ == b@.subrange(from as int, i as int),
        decreases to - i,
    {
        r.push(b[i]);
        i = i + 1;
        assert(r@ =~= b@.subrange(from as int, i as int));
    }
    r
}

/// The corrections of the first `n` diagnostics that overlap `requested`, in order.
pub open spec fn spec_quick_fixes(b: Seq<u8>, index: SemanticIndex, ds: Seq<Diagnostic>, requested: ByteRange, n: int) -> Seq<(Diagnostic, ByteRange, Seq<char>)>
    decreases n,
{
    if n <= 0 {
        Seq::empty()
    } else {
        let rest = spec_quick_fixes(b, index, ds, requested, n - 1);
        let d = ds[n - 1];
        if spec_overlaps(d.range, requested) {
            match spec_quick_fix(b, index, d) {
                Some((range, replacement)) => rest.push((d, range, replacement)),
                None => rest,
            }
        } else {
            rest
        }
    }
}

/// Quick fixes for the diagnostics overlapping `requested_range`: each
/// unknown enum member, enum, reference target or parent table whose name
/// matches exactly one definition but for ASCII case is changed to it.
pub fn quick_fixes(source: &str, index: &SemanticIndex, diagnostics: &[Diagnostic], requested_range: ByteRange) -> (r: Vec<QuickFix>)
    ensures
        r@.len() == spec_quick_fixes(source.spec_bytes(), *index, diagnostics@, requested_range, diagnostics@.len() as int).len(),
        forall|i: int| 0 <= i < r@.len() ==> {
            let (d, range, replacement) = spec_quick_fixes(source.spec_bytes(), *index, diagnostics@, requested_range, diagnostics@.len() as int)[i];
            fix_is(#[trigger] r@[i], d, range, replacement)
        },
{
    let ghost bs = source.spec_bytes();
    let mut out: Vec<QuickFix> = Vec::new();
    let mut i: usize = 0;
    while i < diagnostics.len()
        invariant
            bs == source.spec_bytes(),
            i <= diagnostics@.len(),
            out@.len() == spec_quick_fixes(bs, *index, diagnostics@, requested_range, i as int).len(),
            forall|k: int| 0 <= k < out@.len() ==> {
                let (d, range, replacement) = spec_quick_fixes(bs, *index, diagnostics@, requested_range, i as int)[k];
                fix_is(#[trigger] out@[k], d, range, replacement)
            },
        decreases diagnostics@.len() - i,
    {
        let d = &diagnostics[i];
        if overlaps(d.range, requested_range) {
            match quick_fix(source, index, d) {
                Some(fix) => {
                    out.push(fix);
                },
                None => {},
            }
        }
        i = i + 1;
    }
    out
}


// ---------------------------------------------------------------------------
// Checks of the preconditions, for callers outside the verified code
// ---------------------------------------------------------------------------
/// Whether a range lies in the text, on character boundaries.
pub fn located_exec(source: &str, r: ByteRange) -> (ok: bool)
    ensures
        ok == located(source.spec_bytes(), r),
{
    str_get(source, r.start, r.end).is_some()
}

/// `first_byte_in` over `b[start..end]` finds what `first_byte_from` finds
/// in that slice, shifted by `start`.
proof fn lemma_first_byte_in_slice(b: Seq<u8>, start: int, end: int, s: int, c: u8)
    requires
        0 <= start <= s <= end <= b.len(),
    ensures
        first_byte_in(b, s, end, c) == match first_byte_from(b.subrange(start, end), s - start, c) {
            Some(i) => Some(i + start),
            None => None::<int>,
        },
    decreases end - s,
{
    if s < end && b[s] != c {
        lemma_first_byte_in_slice(b, start, end, s + 1, c);
    }
}

/// The segment that `segment_holding` finds, counted from segment `k`, is
/// one of the segments into which `.` splits the rest of the range's text.
proof fn lemma_segment_within(b: Seq<u8>, range: ByteRange, offset: int, k: nat, s: int)
    requires
        range.start <= s <= range.end <= b.len(),
    ensures
        segment_holding(b, range, offset, k, s) matches Some(m) ==> m - k < split_from(
            b.subrange(range.start as int, range.end as int),
            s - range.start,
            46,
        ).len(),
    decreases range.end - s,
{
    let slice = b.subrange(range.start as int, range.end as int);
    lemma_first_byte_in_slice(b, range.start as int, range.end as int, s, 46);
    lemma_first_byte_from(slice, s - range.start, 46);
    let e = piece_end(b, s, range.end as int);
    if !(s <= offset < e) && e < range.end {
        lemma_first_byte_in_bounds(b, s, range.end as int, 46);
        lemma_segment_within(b, range, offset, k + 1, e + 1);
    }
}

/// An index built from a text places what `semantic_tokens` slices.
pub proof fn lemma_shape_tokens_sliceable(b: Seq<u8>, index: SemanticIndex)
    requires
        index_shape(b, index),
    ensures
        tokens_sliceable(b, index),
{
    assert forall|i: int| 0 <= i < index.quantities@.len() implies located(b, (#[trigger] index.quantities@[i]).range)
        && is_char_boundary(b, quantity_number_end(index.quantities@[i])) by {
        assert(crate::builder::quantity_placed(b, index.quantities@[i]));
    }
}

/// An index built from a text places what `rename` and `prepare_rename`
/// slice, at any offset.
pub proof fn lemma_shape_rename_sliceable(b: Seq<u8>, index: SemanticIndex, offset: int)
    requires
        index_shape(b, index),
    ensures
        rename_sliceable(b, index, offset),
{
    assert forall|j: int|
        0 <= j < index.references@.len() && (#[trigger] index.references@[j]).kind != ReferenceKind::EnumMember implies (
        segment_holding(b, index.references@[j].range, offset, 0, index.references@[j].range.start as int) matches Some(k)
            ==> k < index.references@[j].target_path@.len()) by {
        let r = index.references@[j];
        assert(r.kind == ReferenceKind::Path);
        lemma_segment_within(b, r.range, offset, 0, r.range.start as int);
    }
}

/// Whether `semantic_tokens` can be asked about this text and index.
pub fn tokens_ready(source: &str, index: &SemanticIndex) -> (ok: bool)
    ensures
        ok == tokens_sliceable(source.spec_bytes(), *index),
{
    let mut i: usize = 0;
    while i < index.definitions.len()
        invariant
            i <= index.definitions@.len(),
            forall|k: int| 0 <= k < i ==> located(source.spec_bytes(), (#[trigger] index.definitions@[k]).selection_range),
        decreases index.definitions@.len() - i,
    {
        if !located_exec(source, index.definitions[i].selection_range) {
            return false;
        }
        i = i + 1;
    }
    let mut j: usize = 0;
    while j < index.references.len()
        invariant
            j <= index.references@.len(),
            forall|k: int|
                0 <= k < j && (#[trigger] index.references@[k]).kind == ReferenceKind::EnumMember ==> located(
                    source.spec_bytes(),
                    index.references@[k].range,
                ),
        decreases index.references@.len() - j,
    {
        if index.references[j].kind == ReferenceKind::EnumMember && !located_exec(source, index.references[j].range) {
            return false;
        }
        j = j + 1;
    }
    let mut q: usize = 0;
    while q < index.quantities.len()
        invariant
            q <= index.quantities@.len(),
            forall|k: int|
                0 <= k < q ==> located(source.spec_bytes(), (#[trigger] index.quantities@[k]).range) && is_char_boundary(
                    source.spec_bytes(),
                    quantity_number_end(index.quantities@[k]),
                ),
        decreases index.quantities@.len() - q,
    {
        let quantity = &index.quantities[q];
        if !located_exec(source, quantity.range) {
            return false;
        }
        let authored_len = quantity.range.end - quantity.range.start;
        let sep_len: usize = if quantity.separator.is_some() {
            1
        } else {
            0
        };
        let super_len: usize = match &quantity.super_unit {
            Some(u) => crate::text::string_bytes(u).len(),
            None => 0,
        };
        let number_len = authored_len.saturating_sub(crate::text::string_bytes(&quantity.unit).len()).saturating_sub(
            sep_len,
        ).saturating_sub(super_len);
        let number_end = quantity.range.start + number_len;
        assert(number_end == quantity_number_end(index.quantities@[q as int]));
        if str_get(source, number_end, number_end).is_none() {
            return false;
        }
        q = q + 1;
    }
    true
}

/// Whether every definition name, reference and inheritance edge lies in
/// the text on character boundaries.
pub fn index_located_exec(source: &str, index: &SemanticIndex) -> (ok: bool)
    ensures
        ok == index_located(source.spec_bytes(), *index),
{
    let mut i: usize = 0;
    while i < index.definitions.len()
        invariant
            i <= index.definitions@.len(),
            forall|k: int| 0 <= k < i ==> located(source.spec_bytes(), (#[trigger] index.definitions@[k]).selection_range),
        decreases index.definitions@.len() - i,
    {
        if !located_exec(source, index.definitions[i].selection_range) {
            return false;
        }
        i = i + 1;
    }
    let mut j: usize = 0;
    while j < index.references.len()
        invariant
            j <= index.references@.len(),
            forall|k: int| 0 <= k < j ==> located(source.spec_bytes(), (#[trigger] index.references@[k]).range),
        decreases index.references@.len() - j,
    {
        if !located_exec(source, index.references[j].range) {
            return false;
        }
        j = j + 1;
    }
    let mut e: usize = 0;
    while e < index.inheritance.len()
        invariant
            e <= index.inheritance@.len(),
            forall|k: int| 0 <= k < e ==> located(source.spec_bytes(), (#[trigger] index.inheritance@[k]).range),
        decreases index.inheritance@.len() - e,
    {
        if !located_exec(source, index.inheritance[e].range) {
            return false;
        }
        e = e + 1;
    }
    true
}

/// Whether `prepare_rename` and `rename` can be asked about this text,
/// index and offset.
pub fn rename_ready(source: &str, index: &SemanticIndex, offset: usize) -> (ok: bool)
    ensures
        ok == rename_sliceable(source.spec_bytes(), *index, offset as int),
{
    if !index_located_exec(source, index) {
        return false;
    }
    let mut j: usize = 0;
    while j < index.references.len()
        invariant
            j <= index.references@.len(),
            index_located(source.spec_bytes(), *index),
            forall|k: int|
                0 <= k < j && (#[trigger] index.references@[k]).kind != ReferenceKind::EnumMember ==> (segment_holding(
                    source.spec_bytes(),
                    index.references@[k].range,
                    offset as int,
                    0,
                    index.references@[k].range.start as int,
                ) matches Some(s) ==> s < index.references@[k].target_path@.len()),
        decreases index.references@.len() - j,
    {
        let reference = &index.references[j];
        if reference.kind != ReferenceKind::EnumMember {
            assert(located(source.spec_bytes(), index.references@[j as int].range));
            if let Some(s) = path_segment_at_offset(source, reference.range, offset) {
                if s >= reference.target_path.len() {
                    return false;
                }
            }
        }
        j = j + 1;
    }
    true
}


/// The message shown to the user for a refused rename.
pub open spec fn spec_rename_error_message(error: RenameError) -> Seq<char> {
    match error {
        RenameError::NotRenameable => "the selected symbol cannot be renamed safely"@,
        RenameError::InvalidName => "the new name is not a valid bare ATML name"@,
        RenameError::Conflict => "the new name conflicts with an existing definition"@,
    }
}

pub fn rename_error_message(error: RenameError) -> (r: &'static str)
    ensures
        r@ == spec_rename_error_message(error),
{
    match error {
        RenameError::NotRenameable => "the selected symbol cannot be renamed safely",
        RenameError::InvalidName => "the new name is not a valid bare ATML name",
        RenameError::Conflict => "the new name conflicts with an existing definition",
    }
}

/// Renaming gives the same edits from every place that names the same
/// definition and can be renamed there: from a use as from the declaration.
pub proof fn lemma_rename_same_from_each_occurrence(
    b: Seq<u8>,
    index: SemanticIndex,
    o1: int,
    o2: int,
    new_name: Seq<char>,
)
    requires
        spec_rename_definition(b, index, o1) is Some,
        spec_rename_definition(b, index, o1) == spec_rename_definition(b, index, o2),
        spec_prepare_rename(b, index, o1) is Some,
        spec_prepare_rename(b, index, o2) is Some,
    ensures
        spec_rename(b, index, o1, new_name) == spec_rename(b, index, o2, new_name),
{
}

/// A renaming is refused as an invalid name whenever the new name is not a
/// bare key, wherever the cursor stands; with a bare new name it is refused as
/// not renameable wherever preparing a rename finds nothing; and it succeeds
/// only where preparing a rename finds a range.
pub proof fn lemma_rename_outcomes(b: Seq<u8>, index: SemanticIndex, offset: int, new_name: Seq<char>)
    ensures
        !spec_is_bare_name(encode_utf8(new_name)) ==> spec_rename(b, index, offset, new_name) == Err::<
            Seq<ByteRange>,
            RenameError,
        >(RenameError::InvalidName),
        spec_is_bare_name(encode_utf8(new_name)) && spec_prepare_rename(b, index, offset) is None ==> spec_rename(
            b,
            index,
            offset,
            new_name,
        ) == Err::<Seq<ByteRange>, RenameError>(RenameError::NotRenameable),
        spec_rename(b, index, offset, new_name) is Ok ==> spec_prepare_rename(b, index, offset) is Some,
{
}

/// Where renaming can start, the range it offers holds the offset and is a
/// bare name in the text.
pub proof fn lemma_prepare_rename_range(b: Seq<u8>, index: SemanticIndex, offset: int)
    ensures
        spec_prepare_rename(b, index, offset) matches Some(range) ==> spec_contains(range, offset) && bare_name_at(b, range),
{
}

/// The diagnostics among the first `n` that overlap `requested`.
pub open spec fn overlapping(ds: Seq<Diagnostic>, requested: ByteRange, n: int) -> Seq<Diagnostic> {
    ds.take(n).filter(|d: Diagnostic| spec_overlaps(d.range, requested))
}

/// Quick fixes come at most one per diagnostic, in the diagnostics' order, and
/// only for diagnostics that overlap the requested range.
pub proof fn lemma_quick_fixes_per_diagnostic(
    b: Seq<u8>,
    index: SemanticIndex,
    ds: Seq<Diagnostic>,
    requested: ByteRange,
    n: int,
)
    requires
        0 <= n <= ds.len(),
    ensures
        spec_quick_fixes(b, index, ds, requested, n).len() <= overlapping(ds, requested, n).len(),
        forall|k: int|
            0 <= k < spec_quick_fixes(b, index, ds, requested, n).len() ==> spec_overlaps(
                (#[trigger] spec_quick_fixes(b, index, ds, requested, n)[k]).0.range,
                requested,
            ) && ds.take(n).contains(spec_quick_fixes(b, index, ds, requested, n)[k].0),
    decreases n,
{
    if n > 0 {
        lemma_quick_fixes_per_diagnostic(b, index, ds, requested, n - 1);
        let p = |d: Diagnostic| spec_overlaps(d.range, requested);
        assert(ds.take(n) =~= ds.take(n - 1).push(ds[n - 1]));
        reveal(Seq::filter);
        assert(ds.take(n).drop_last() =~= ds.take(n - 1));
        let rest = spec_quick_fixes(b, index, ds, requested, n - 1);
        let all = spec_quick_fixes(b, index, ds, requested, n);
        assert forall|k: int| 0 <= k < all.len() implies spec_overlaps((#[trigger] all[k]).0.range, requested)
            && ds.take(n).contains(all[k].0) by {
            if k < rest.len() {
                assert(all[k] == rest[k]);
                let prev = ds.take(n - 1);
                let j = choose|j: int| 0 <= j < prev.len() && #[trigger] prev[j] == rest[k].0;
                assert(ds.take(n)[j] == prev[j]);
            } else {
                assert(ds.take(n)[n - 1] == ds[n - 1]);
            }
        }
    }
}


/// The codes of the diagnostics that can have a quick fix.
pub open spec fn fixable_code(code: Seq<char>) -> bool {
    ||| code == "atml.enum.unknown-member"@
    ||| code == "atml.enum.unknown-definition"@
    ||| code == "atml.reference.unknown-target"@
    ||| code == "atml.inheritance.unknown-parent"@
}

proof fn lemma_last_double_colon_in_bounds(b: Seq<u8>, from: int, to: int)
    ensures
        last_double_colon_in(b, from, to) matches Some(p) ==> from <= p && p + 2 <= to && b[p] == 58 && b[p + 1] == 58,
    decreases to - from,
{
    if to - from >= 2 && !(b[to - 2] == 58 && b[to - 1] == 58) {
        lemma_last_double_colon_in_bounds(b, from, to - 1);
    }
}

/// A quick fix belongs to a diagnostic with one of the fixable codes, replaces
/// part of that diagnostic's range, and puts there a text that equals the
/// replaced text but for ASCII case.
pub proof fn lemma_quick_fix_shape(b: Seq<u8>, index: SemanticIndex, d: Diagnostic)
    ensures
        spec_quick_fix(b, index, d) matches Some(fix) ==> {
            let (range, replacement) = fix;
            &&& d.range.start <= range.start <= range.end <= d.range.end
            &&& fixable_code(d.code@)
            &&& eq_ignore_ascii_case(encode_utf8(replacement), b.subrange(range.start as int, range.end as int))
        },
{
    let defs = index.definitions@;
    let (start, end) = (d.range.start as int, d.range.end as int);
    lemma_last_double_colon_in_bounds(b, start, end);
    if let Some((range, replacement)) = spec_quick_fix(b, index, d) {
        if d.code@ == "atml.enum.unknown-member"@ {
            let sep = last_double_colon_in(b, start, end)->Some_0;
            let enum_path = split_from(b.subrange(start, sep), 0, 46);
            let i = unique_candidate(defs, FixKind::UnknownMember, enum_path, b.subrange(sep + 2, end))->Some_0;
            assert(only_candidate(defs, FixKind::UnknownMember, enum_path, b.subrange(sep + 2, end), i));
        } else if d.code@ == "atml.enum.unknown-definition"@ {
            let sep = last_double_colon_in(b, start, end)->Some_0;
            let i = unique_candidate(defs, FixKind::UnknownEnum, Seq::empty(), b.subrange(start, sep))->Some_0;
            assert(only_candidate(defs, FixKind::UnknownEnum, Seq::empty(), b.subrange(start, sep), i));
        } else if d.code@ == "atml.reference.unknown-target"@ {
            let i = unique_candidate(defs, FixKind::UnknownTarget, Seq::empty(), b.subrange(start, end))->Some_0;
            assert(only_candidate(defs, FixKind::UnknownTarget, Seq::empty(), b.subrange(start, end), i));
        } else {
            let i = unique_candidate(defs, FixKind::UnknownParent, Seq::empty(), b.subrange(start, end))->Some_0;
            assert(only_candidate(defs, FixKind::UnknownParent, Seq::empty(), b.subrange(start, end), i));
        }
    }
}

} // verus!
