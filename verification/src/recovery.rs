//! Position-stable recovery of documents whose path references do not
//! resolve: every Bare Path Reference in value position is masked by a string
//! literal of the same width, so that offsets in the rest of the text stay put.
use vstd::prelude::*;
use vstd::string::StringSliceAdditionalSpecFns;
use vstd::utf8::*;

use crate::document::{atml_parse, model_of, parse_atml, AtmlDocument};
use crate::semantic::{lemma_first_byte_from, parse_path_reference, spec_path_reference};
use crate::text::{
    ascii_alpha, ascii_whitespace, is_ascii_alpha, is_ascii_whitespace, is_path_prefix_byte,
    ascii_string, bytes_of, lemma_ascii_boundaries, lemma_encode_concat, lemma_view_from_bytes,
    name_byte, substr,
};
use crate::ByteRange;

verus! {

/// Where the scanner stands with respect to string literals.
#[derive(Debug, Clone, Copy, PartialEq, Eq, Structural)]
pub enum StringState {
    Outside,
    Basic,
    Literal,
    MultiBasic,
    MultiLiteral,
}

/// The scanner's state between two bytes.
pub struct ScanState {
    pub string: StringState,
    pub escaped: bool,
    pub comment: bool,
    pub expect_value: bool,
    pub array_depth: nat,
    pub header_depth: nat,
}

/// Before the first byte: outside strings and comments, expecting no value.
pub open spec fn initial_scan_state() -> ScanState {
    ScanState {
        string: StringState::Outside,
        escaped: false,
        comment: false,
        expect_value: false,
        array_depth: 0,
        header_depth: 0,
    }
}

/// Three bytes `q` start at `i`.
pub open spec fn triple(b: Seq<u8>, i: int, q: u8) -> bool {
    0 <= i && i + 2 < b.len() && b[i] == q && b[i + 1] == q && b[i + 2] == q
}

/// End of the run of letters, digits, `_`, `-` and `.` that starts at `j`.
pub open spec fn name_end(b: Seq<u8>, j: int) -> int
    decreases b.len() - j,
{
    if 0 <= j < b.len() && is_path_prefix_byte(b[j]) {
        name_end(b, j + 1)
    } else {
        j
    }
}

pub proof fn lemma_name_end(b: Seq<u8>, j: int)
    requires
        0 <= j <= b.len(),
    ensures
        j <= name_end(b, j) <= b.len(),
        forall|k: int| j <= k < name_end(b, j) ==> is_path_prefix_byte(#[trigger] b[k]),
        name_end(b, j) < b.len() ==> !is_path_prefix_byte(b[name_end(b, j)]),
    decreases b.len() - j,
{
    if j < b.len() && is_path_prefix_byte(b[j]) {
        lemma_name_end(b, j + 1);
    }
}

/// One step of the scanner on a byte outside strings and comments: the next
/// state, where the scan goes on, and the reference range found there, if any.
pub open spec fn outside_step(b: Seq<u8>, i: int, s: ScanState) -> (ScanState, int, Option<ByteRange>) {
    let byte = b[i];
    if byte == 35 {
        (ScanState { comment: true, ..s }, i + 1, None)
    } else if byte == 34 && triple(b, i, 34) {
        (ScanState { string: StringState::MultiBasic, expect_value: false, ..s }, i + 3, None)
    } else if byte == 39 && triple(b, i, 39) {
        (ScanState { string: StringState::MultiLiteral, expect_value: false, ..s }, i + 3, None)
    } else if byte == 34 {
        (ScanState { string: StringState::Basic, expect_value: false, ..s }, i + 1, None)
    } else if byte == 39 {
        (ScanState { string: StringState::Literal, expect_value: false, ..s }, i + 1, None)
    } else if byte == 61 {
        (ScanState { expect_value: true, ..s }, i + 1, None)
    } else if byte == 91 && (s.expect_value || s.array_depth > 0) {
        (ScanState { array_depth: s.array_depth + 1, expect_value: true, ..s }, i + 1, None)
    } else if byte == 91 {
        (ScanState { header_depth: s.header_depth + 1, ..s }, i + 1, None)
    } else if byte == 93 && s.array_depth > 0 {
        (ScanState { array_depth: (s.array_depth - 1) as nat, expect_value: false, ..s }, i + 1, None)
    } else if byte == 93 && s.header_depth > 0 {
        (ScanState { header_depth: (s.header_depth - 1) as nat, ..s }, i + 1, None)
    } else if byte == 44 && s.array_depth > 0 && s.header_depth == 0 {
        (ScanState { expect_value: true, ..s }, i + 1, None)
    } else if byte == 123 && s.expect_value {
        (ScanState { expect_value: false, ..s }, i + 1, None)
    } else if s.expect_value && (is_ascii_alpha(byte) || byte == 95) {
        let end = name_end(b, i + 1);
        let found = if spec_path_reference(b.subrange(i, end)) is Some {
            Some(ByteRange { start: i as usize, end: end as usize })
        } else {
            None
        };
        (ScanState { expect_value: false, ..s }, end, found)
    } else if s.expect_value && !is_ascii_whitespace(byte) {
        (ScanState { expect_value: false, ..s }, i + 1, None)
    } else {
        (s, i + 1, None)
    }
}

/// One step of the scanner at byte `i`.
pub open spec fn scan_step(b: Seq<u8>, i: int, s: ScanState) -> (ScanState, int, Option<ByteRange>) {
    let byte = b[i];
    if s.comment {
        (ScanState { comment: byte != 10, ..s }, i + 1, None)
    } else {
        match s.string {
            StringState::Basic => {
                let next = if s.escaped {
                    ScanState { escaped: false, ..s }
                } else if byte == 92 {
                    ScanState { escaped: true, ..s }
                } else if byte == 34 {
                    ScanState { string: StringState::Outside, ..s }
                } else {
                    s
                };
                (next, i + 1, None)
            },
            StringState::Literal => {
                let next = if byte == 39 {
                    ScanState { string: StringState::Outside, ..s }
                } else {
                    s
                };
                (next, i + 1, None)
            },
            StringState::MultiBasic => if triple(b, i, 34) {
                (ScanState { string: StringState::Outside, ..s }, i + 3, None)
            } else {
                (s, i + 1, None)
            },
            StringState::MultiLiteral => if triple(b, i, 39) {
                (ScanState { string: StringState::Outside, ..s }, i + 3, None)
            } else {
                (s, i + 1, None)
            },
            StringState::Outside => outside_step(b, i, s),
        }
    }
}

pub proof fn lemma_step_advances(b: Seq<u8>, i: int, s: ScanState)
    requires
        0 <= i < b.len(),
    ensures
        i < scan_step(b, i, s).1 <= b.len(),
{
    lemma_name_end(b, i + 1);
}

/// A range found by a step is the run of name bytes that the step skips over.
pub proof fn lemma_step_found(b: Seq<u8>, i: int, s: ScanState)
    requires
        0 <= i < b.len() <= usize::MAX,
    ensures
        scan_step(b, i, s).2 matches Some(r) ==> {
            &&& r.start == i
            &&& r.end == scan_step(b, i, s).1
            &&& i + 2 <= r.end
            &&& spec_path_reference(b.subrange(i, r.end as int)) is Some
            &&& forall|j: int| i <= j < r.end ==> is_path_prefix_byte(#[trigger] b[j])
        },
{
    lemma_name_end(b, i + 1);
    if scan_step(b, i, s).2 is Some {
        let t = b.subrange(i, scan_step(b, i, s).1);
        lemma_first_byte_from(t, 0, 46);
        assert(t[0] == b[i]);
    }
}

/// The reference ranges found from byte `i` on, starting in state `s`.
pub open spec fn scan_from(b: Seq<u8>, i: int, s: ScanState) -> Seq<ByteRange>
    decreases b.len() - i,
{
    if i < 0 || i >= b.len() {
        Seq::empty()
    } else {
        let (next, j, found) = scan_step(b, i, s);
        proof {
            lemma_step_advances(b, i, s);
        }
        let here = match found {
            Some(r) => seq![r],
            None => Seq::empty(),
        };
        here + scan_from(b, j, next)
    }
}

/// What the scanner keeps true between bytes: inside a string no value is
/// expected, and where a value is expected outside strings and comments the
/// byte before is not a name byte.
spec fn scan_inv(b: Seq<u8>, i: int, s: ScanState) -> bool {
    &&& s.string != StringState::Outside ==> !s.expect_value
    &&& (s.expect_value && !s.comment && s.string == StringState::Outside) ==> 0 < i <= b.len()
        && !is_path_prefix_byte(b[i - 1])
}

/// A found range is a whole token: it starts after a byte that is not a
/// name byte, and the byte after it, if any, is not one either.
spec fn whole_token(b: Seq<u8>, r: ByteRange) -> bool {
    &&& 1 <= r.start
    &&& !is_path_prefix_byte(b[r.start - 1])
    &&& r.end < b.len() ==> !is_path_prefix_byte(b[r.end as int])
}

proof fn lemma_scan_step_inv(b: Seq<u8>, i: int, s: ScanState)
    requires
        0 <= i < b.len() <= usize::MAX,
        scan_inv(b, i, s),
    ensures
        scan_inv(b, scan_step(b, i, s).1, scan_step(b, i, s).0),
        scan_step(b, i, s).2 matches Some(r) ==> whole_token(b, r),
{
    lemma_name_end(b, i + 1);
    lemma_step_found(b, i, s);
}

proof fn lemma_scan_from_tokens(b: Seq<u8>, i: int, s: ScanState)
    requires
        0 <= i,
        b.len() <= usize::MAX,
        scan_inv(b, i, s),
    ensures
        forall|k: int| 0 <= k < scan_from(b, i, s).len() ==> whole_token(b, #[trigger] scan_from(b, i, s)[k]),
    decreases b.len() - i,
{
    if i < b.len() {
        let (next, j, found) = scan_step(b, i, s);
        lemma_step_advances(b, i, s);
        lemma_scan_step_inv(b, i, s);
        lemma_scan_from_tokens(b, j, next);
        let here = match found {
            Some(r) => seq![r],
            None => Seq::<ByteRange>::empty(),
        };
        let all = scan_from(b, i, s);
        assert(all == here + scan_from(b, j, next));
        assert forall|k: int| 0 <= k < all.len() implies whole_token(b, #[trigger] all[k]) by {
            if k < here.len() {
                assert(all[k] == here[k]);
            } else {
                assert(all[k] == scan_from(b, j, next)[k - here.len()]);
            }
        }
    }
}

/// Each reference range is a whole token: it never starts at the first byte,
/// and neither the byte before it nor the byte after it (when there is one)
/// is a letter, digit, `_`, `-` or `.`.
pub proof fn lemma_reference_ranges_whole(b: Seq<u8>)
    requires
        b.len() <= usize::MAX,
    ensures
        forall|k: int|
            0 <= k < reference_ranges(b).len() ==> {
                let r = #[trigger] reference_ranges(b)[k];
                &&& 1 <= r.start
                &&& !is_path_prefix_byte(b[r.start - 1])
                &&& r.end < b.len() ==> !is_path_prefix_byte(b[r.end as int])
            },
{
    lemma_scan_from_tokens(b, 0, initial_scan_state());
    assert forall|k: int| 0 <= k < reference_ranges(b).len() implies {
        let r = #[trigger] reference_ranges(b)[k];
        &&& 1 <= r.start
        &&& !is_path_prefix_byte(b[r.start - 1])
        &&& r.end < b.len() ==> !is_path_prefix_byte(b[r.end as int])
    } by {
        assert(whole_token(b, reference_ranges(b)[k]));
    }
}

/// The Bare Path References written in value position in `b`, outside strings
/// and comments, in source order.
pub open spec fn reference_ranges(b: Seq<u8>) -> Seq<ByteRange> {
    scan_from(b, 0, initial_scan_state())
}

/// Ranges inside `[0, len)`, each holding at least one byte, in increasing
/// order and pairwise disjoint.
pub open spec fn ordered_ranges(ranges: Seq<ByteRange>, len: int) -> bool {
    &&& forall|k: int| 0 <= k < ranges.len() ==> (#[trigger] ranges[k]).start < ranges[k].end <= len
    &&& forall|k: int, l: int| 0 <= k < l < ranges.len() ==> (#[trigger] ranges[k]).end <= (#[trigger] ranges[l]).start
}

/// Each range holds a Bare Path Reference made of letters, digits, `_`, `-`
/// and `.`, at least two bytes long.
pub open spec fn reference_texts(b: Seq<u8>, ranges: Seq<ByteRange>) -> bool {
    forall|k: int|
        0 <= k < ranges.len() ==> {
            &&& ranges[k].start + 2 <= ranges[k].end
            &&& spec_path_reference(b.subrange((#[trigger] ranges[k]).start as int, ranges[k].end as int)) is Some
            &&& forall|j: int| ranges[k].start <= j < ranges[k].end ==> is_path_prefix_byte(b[j])
        }
}

proof fn lemma_scan_from_ordered(b: Seq<u8>, i: int, s: ScanState)
    requires
        0 <= i,
        b.len() <= usize::MAX,
    ensures
        ordered_ranges(scan_from(b, i, s), b.len() as int),
        forall|k: int| 0 <= k < scan_from(b, i, s).len() ==> i <= (#[trigger] scan_from(b, i, s)[k]).start,
    decreases b.len() - i,
{
    if i < b.len() {
        let (next, j, found) = scan_step(b, i, s);
        lemma_step_advances(b, i, s);
        lemma_step_found(b, i, s);
        lemma_scan_from_ordered(b, j, next);
        let here = match found {
            Some(r) => seq![r],
            None => Seq::<ByteRange>::empty(),
        };
        let rest = scan_from(b, j, next);
        let all = scan_from(b, i, s);
        assert(all == here + rest);
        assert forall|k: int| 0 <= k < all.len() implies i <= (#[trigger] all[k]).start && all[k].start < all[k].end
            <= b.len() by {
            if k < here.len() {
                assert(all[k] == here[k]);
            } else {
                assert(all[k] == rest[k - here.len()]);
            }
        }
        assert forall|k: int, l: int| 0 <= k < l < all.len() implies (#[trigger] all[k]).end <= (#[trigger] all[l]).start by {
            if l < here.len() {
            } else if k < here.len() {
                assert(all[k] == here[k]);
                assert(all[l] == rest[l - here.len()]);
            } else {
                assert(all[k] == rest[k - here.len()]);
                assert(all[l] == rest[l - here.len()]);
            }
        }
    }
}

/// The bytes that recovery parses keep the source's length: each reference
/// range becomes a string literal of the same width (`"`, then `x`s, then
/// `"`), and every byte outside the ranges stays as it is.
pub proof fn lemma_masked_placeholders(b: Seq<u8>)
    requires
        b.len() <= usize::MAX,
    ensures
        masked(b, reference_ranges(b)).len() == b.len(),
        forall|k: int, j: int|
            0 <= k < reference_ranges(b).len() && (#[trigger] reference_ranges(b)[k]).start <= j
                < reference_ranges(b)[k].end ==> #[trigger] masked(b, reference_ranges(b))[j] == if j
                == reference_ranges(b)[k].start || j + 1 == reference_ranges(b)[k].end {
                34u8
            } else {
                120u8
            },
        forall|j: int|
            0 <= j < b.len() && (forall|k: int|
                0 <= k < reference_ranges(b).len() ==> !((#[trigger] reference_ranges(b)[k]).start <= j
                    < reference_ranges(b)[k].end)) ==> #[trigger] masked(b, reference_ranges(b))[j] == b[j],
{
    let rs = reference_ranges(b);
    lemma_scan_from_ordered(b, 0, initial_scan_state());
    assert forall|k: int, j: int| 0 <= k < rs.len() && (#[trigger] rs[k]).start <= j < rs[k].end implies #[trigger] masked(
        b,
        rs,
    )[j] == if j == rs[k].start || j + 1 == rs[k].end {
        34u8
    } else {
        120u8
    } by {
        let k2 = choose|k2: int| 0 <= k2 < rs.len() && (#[trigger] rs[k2]).start <= j < rs[k2].end;
        if k2 < k {
            assert(rs[k2].end <= rs[k].start);
        } else if k < k2 {
            assert(rs[k].end <= rs[k2].start);
        }
    }
}

/// The exec form of `ScanState`.
#[derive(Clone, Copy)]
struct Scanner {
    string: StringState,
    escaped: bool,
    comment: bool,
    expect_value: bool,
    array_depth: usize,
    header_depth: usize,
}

impl Scanner {
    spec fn state(self) -> ScanState {
        ScanState {
            string: self.string,
            escaped: self.escaped,
            comment: self.comment,
            expect_value: self.expect_value,
            array_depth: self.array_depth as nat,
            header_depth: self.header_depth as nat,
        }
    }
}

fn is_triple(b: &[u8], i: usize, q: u8) -> (r: bool)
    ensures
        r == triple(b@, i as int, q),
{
    i < b.len() && b.len() - i > 2 && b[i] == q && b[i + 1] == q && b[i + 2] == q
}

fn name_end_exec(b: &[u8], j: usize) -> (r: usize)
    requires
        j <= b@.len(),
    ensures
        r == name_end(b@, j as int),
{
    let mut k = j;
    while k < b.len() && (name_byte(b[k]) || b[k] == 46)
        invariant
            j <= k <= b@.len(),
            name_end(b@, j as int) == name_end(b@, k as int),
        decreases b@.len() - k,
    {
        k = k + 1;
    }
    k
}

/// The exec form of `scan_step`; depths never exceed the number of bytes read.
fn scan_step_exec(source: &str, b: &[u8], i: usize, s: Scanner) -> (r: (Scanner, usize, Option<ByteRange>))
    requires
        b@ == source.spec_bytes(),
        i < b@.len(),
        s.array_depth <= i,
        s.header_depth <= i,
    ensures
        (r.0.state(), r.1 as int, r.2) == scan_step(b@, i as int, s.state()),
        r.0.array_depth <= r.1,
        r.0.header_depth <= r.1,
{
    let byte = b[i];
    let mut n = s;
    if s.comment {
        if byte == 10 {
            n.comment = false;
        }
        return (n, i + 1, None);
    }
    match s.string {
        StringState::Basic => {
            if s.escaped {
                n.escaped = false;
            } else if byte == 92 {
                n.escaped = true;
            } else if byte == 34 {
                n.string = StringState::Outside;
            }
            (n, i + 1, None)
        },
        StringState::Literal => {
            if byte == 39 {
                n.string = StringState::Outside;
            }
            (n, i + 1, None)
        },
        StringState::MultiBasic => {
            if is_triple(b, i, 34) {
                n.string = StringState::Outside;
                (n, i + 3, None)
            } else {
                (n, i + 1, None)
            }
        },
        StringState::MultiLiteral => {
            if is_triple(b, i, 39) {
                n.string = StringState::Outside;
                (n, i + 3, None)
            } else {
                (n, i + 1, None)
            }
        },
        StringState::Outside => {
            if byte == 35 {
                n.comment = true;
                (n, i + 1, None)
            } else if byte == 34 && is_triple(b, i, 34) {
                n.string = StringState::MultiBasic;
                n.expect_value = false;
                (n, i + 3, None)
            } else if byte == 39 && is_triple(b, i, 39) {
                n.string = StringState::MultiLiteral;
                n.expect_value = false;
                (n, i + 3, None)
            } else if byte == 34 {
                n.string = StringState::Basic;
                n.expect_value = false;
                (n, i + 1, None)
            } else if byte == 39 {
                n.string = StringState::Literal;
                n.expect_value = false;
                (n, i + 1, None)
            } else if byte == 61 {
                n.expect_value = true;
                (n, i + 1, None)
            } else if byte == 91 && (s.expect_value || s.array_depth > 0) {
                n.array_depth = s.array_depth + 1;
                n.expect_value = true;
                (n, i + 1, None)
            } else if byte == 91 {
                n.header_depth = s.header_depth + 1;
                (n, i + 1, None)
            } else if byte == 93 && s.array_depth > 0 {
                n.array_depth = s.array_depth - 1;
                n.expect_value = false;
                (n, i + 1, None)
            } else if byte == 93 && s.header_depth > 0 {
                n.header_depth = s.header_depth - 1;
                (n, i + 1, None)
            } else if byte == 44 && s.array_depth > 0 && s.header_depth == 0 {
                n.expect_value = true;
                (n, i + 1, None)
            } else if byte == 123 && s.expect_value {
                n.expect_value = false;
                (n, i + 1, None)
            } else if s.expect_value && (ascii_alpha(byte) || byte == 95) {
                let end = name_end_exec(b, i + 1);
                proof {
                    lemma_name_end(b@, i + 1);
                    lemma_view_from_bytes(source);
                    lemma_ascii_boundaries(b@, i as int);
                    if end - 1 > i {
                        assert(is_path_prefix_byte(b@[end - 1]));
                    }
                    lemma_ascii_boundaries(b@, end - 1);
                }
                let text = substr(source, i, end);
                let found = match parse_path_reference(text) {
                    Some(_) => Some(ByteRange { start: i, end }),
                    None => None,
                };
                n.expect_value = false;
                (n, end, found)
            } else if s.expect_value && !ascii_whitespace(byte) {
                n.expect_value = false;
                (n, i + 1, None)
            } else {
                (n, i + 1, None)
            }
        },
    }
}

/// The byte ranges of the Bare Path References written as values, outside
/// strings and comments, in source order.
pub fn reference_value_ranges(source: &str) -> (r: Vec<ByteRange>)
    ensures
        r@ == reference_ranges(source.spec_bytes()),
        ordered_ranges(r@, source.spec_bytes().len() as int),
        reference_texts(source.spec_bytes(), r@),
{
    let b = source.as_bytes();
    let ghost bs = b@;
    let mut state = Scanner {
        string: StringState::Outside,
        escaped: false,
        comment: false,
        expect_value: false,
        array_depth: 0,
        header_depth: 0,
    };
    let mut ranges: Vec<ByteRange> = Vec::new();
    let mut index: usize = 0;
    while index < b.len()
        invariant
            b@ == bs,
            bs == source.spec_bytes(),
            index <= bs.len(),
            state.array_depth <= index,
            state.header_depth <= index,
            ranges@ + scan_from(bs, index as int, state.state()) == reference_ranges(bs),
            ordered_ranges(ranges@, bs.len() as int),
            forall|k: int| 0 <= k < ranges@.len() ==> (#[trigger] ranges@[k]).end <= index,
            reference_texts(bs, ranges@),
        decreases bs.len() - index,
    {
        let ghost before = ranges@;
        let (next, j, found) = scan_step_exec(source, b, index, state);
        proof {
            lemma_step_advances(bs, index as int, state.state());
            lemma_step_found(bs, index as int, state.state());
        }
        match found {
            Some(r) => {
                ranges.push(r);
                proof {
                    assert(ranges@ + scan_from(bs, j as int, next.state()) =~= before + scan_from(
                        bs,
                        index as int,
                        state.state(),
                    ));
                }
            },
            None => {
                assert(ranges@ + scan_from(bs, j as int, next.state()) =~= before + scan_from(
                    bs,
                    index as int,
                    state.state(),
                ));
            },
        }
        index = j;
        state = next;
    }
    proof {
        assert(ranges@ + scan_from(bs, index as int, state.state()) =~= ranges@);
    }
    ranges
}

/// Byte `i` of `b` once every range is masked: the first and last byte of a
/// range become `"`, the bytes between them `x`, and bytes outside all ranges
/// stay as they are.
pub open spec fn masked_byte(b: Seq<u8>, ranges: Seq<ByteRange>, i: int) -> u8 {
    if exists|k: int| 0 <= k < ranges.len() && (#[trigger] ranges[k]).start <= i < ranges[k].end {
        let k = choose|k: int| 0 <= k < ranges.len() && (#[trigger] ranges[k]).start <= i < ranges[k].end;
        if i == ranges[k].start || i + 1 == ranges[k].end {
            34
        } else {
            120
        }
    } else {
        b[i]
    }
}

/// `b` with every range replaced by a string literal of the same width.
pub open spec fn masked(b: Seq<u8>, ranges: Seq<ByteRange>) -> Seq<u8> {
    Seq::new(b.len(), |i: int| masked_byte(b, ranges, i))
}

/// The text that recovery parses: the source with its reference values masked.
pub open spec fn recovered_text(source: Seq<u8>) -> Seq<char> {
    decode_utf8(masked(source, reference_ranges(source)))
}

/// `"` followed by `width - 2` times `x` and `"`.
fn quoted(width: usize) -> (r: String)
    requires
        width >= 2,
    ensures
        bytes_of(r) == Seq::new(width as nat, |j: int| if j == 0 || j + 1 == width { 34u8 } else { 120u8 }),
{
    let mut v: Vec<u8> = Vec::new();
    v.push(34);
    let mut j: usize = 1;
    while j + 1 < width
        invariant
            1 <= j <= width - 1,
            width >= 2,
            v@ =~= Seq::new(j as nat, |i: int| if i == 0 { 34u8 } else { 120u8 }),
        decreases width - j,
    {
        v.push(120);
        j = j + 1;
    }
    v.push(34);
    ascii_string(v.as_slice())
}

/// The source text with each of `ranges` masked.
fn masked_source(source: &str, ranges: &Vec<ByteRange>) -> (r: String)
    requires
        ordered_ranges(ranges@, source.spec_bytes().len() as int),
        reference_texts(source.spec_bytes(), ranges@),
    ensures
        bytes_of(r) == masked(source.spec_bytes(), ranges@),
{
    let ghost bs = source.spec_bytes();
    let ghost rs = ranges@;
    let ghost m = masked(bs, rs);
    let len = source.as_bytes().len();
    proof {
        lemma_view_from_bytes(source);
        is_char_boundary_start_end_of_seq(bs);
    }
    let mut out = String::new();
    let mut cursor: usize = 0;
    let mut k: usize = 0;
    while k < ranges.len()
        invariant
            bs == source.spec_bytes(),
            len == bs.len(),
            valid_utf8(bs),
            rs == ranges@,
            m == masked(bs, rs),
            ordered_ranges(rs, bs.len() as int),
            reference_texts(bs, rs),
            k <= rs.len(),
            cursor <= bs.len(),
            k == 0 ==> cursor == 0,
            k > 0 ==> cursor == rs[k - 1].end,
            is_char_boundary(bs, cursor as int),
            bytes_of(out) == m.subrange(0, cursor as int),
        decreases rs.len() - k,
    {
        let r = ranges[k];
        proof {
            assert(is_path_prefix_byte(bs[r.start as int]));
            assert(is_path_prefix_byte(bs[r.end - 1]));
            lemma_ascii_boundaries(bs, r.start as int);
            lemma_ascii_boundaries(bs, r.end - 1);
            if k > 0 {
                assert(rs[k - 1].end <= rs[k as int].start);
            }
        }
        let piece = substr(source, cursor, r.start);
        let q = quoted(r.end - r.start);
        let ghost before = out@;
        out.append(piece);
        out.append(q.as_str());
        proof {
            lemma_encode_concat(before, piece@);
            lemma_encode_concat(before + piece@, q@);
            assert(out@ == before + piece@ + q@);
            assert forall|j: int| cursor <= j < r.start implies #[trigger] m[j] == bs[j] by {
                assert forall|l: int| 0 <= l < rs.len() implies !((#[trigger] rs[l]).start <= j < rs[l].end) by {
                    if l < k {
                        if l + 1 < k {
                            assert(rs[l].end <= rs[k - 1].start);
                        }
                    } else if l > k {
                        assert(rs[k as int].end <= rs[l].start);
                    }
                }
            }
            assert(m.subrange(cursor as int, r.start as int) =~= piece.spec_bytes());
            assert forall|j: int| r.start <= j < r.end implies #[trigger] m[j] == (if j == r.start || j + 1 == r.end { 34u8 } else { 120u8 }) by {
                assert(rs[k as int].start <= j < rs[k as int].end);
                let c = choose|c: int| 0 <= c < rs.len() && (#[trigger] rs[c]).start <= j < rs[c].end;
                if c < k {
                    assert(rs[c].end <= rs[k as int].start);
                } else if c > k {
                    assert(rs[k as int].end <= rs[c].start);
                }
            }
            assert(m.subrange(r.start as int, r.end as int) =~= bytes_of(q));
            assert(m.subrange(0, r.end as int) =~= m.subrange(0, cursor as int) + m.subrange(cursor as int, r.start as int)
                + m.subrange(r.start as int, r.end as int));
        }
        cursor = r.end;
        k = k + 1;
    }
    let tail = substr(source, cursor, len);
    let ghost before = out@;
    out.append(tail);
    proof {
        lemma_encode_concat(before, tail@);
        assert forall|j: int| cursor <= j < bs.len() implies #[trigger] m[j] == bs[j] by {
            assert forall|l: int| 0 <= l < rs.len() implies !((#[trigger] rs[l]).start <= j < rs[l].end) by {
                if l + 1 < k {
                    assert(rs[l].end <= rs[k - 1].start);
                }
            }
        }
        assert(m.subrange(cursor as int, bs.len() as int) =~= tail.spec_bytes());
        assert(m =~= m.subrange(0, cursor as int) + m.subrange(cursor as int, bs.len() as int));
    }
    out
}

/// Recovery for a document whose path references fail to resolve: each Bare
/// Path Reference written as a value is masked by a string literal of the same
/// width, and the masked text is parsed. `None` when there is no such
/// reference or the masked text does not parse either.
pub fn recover_reference_document(source: &str) -> (r: Option<AtmlDocument>)
    ensures
        reference_ranges(source.spec_bytes()).len() == 0 ==> r is None,
        reference_ranges(source.spec_bytes()).len() > 0 ==> match atml_parse(recovered_text(source.spec_bytes())) {
            Ok(m) => r matches Some(d) && model_of(d) == m,
            Err(_) => r is None,
        },
{
    let ranges = reference_value_ranges(source);
    if ranges.len() == 0 {
        return None;
    }
    let recovered = masked_source(source, &ranges);
    proof {
        encode_utf8_decode_utf8(recovered@);
    }
    match parse_atml(recovered.as_str()) {
        Ok(d) => Some(d),
        Err(_) => None,
    }
}

} // verus!
