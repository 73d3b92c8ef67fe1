//! Context-sensitive completion at a byte offset.
use vstd::prelude::*;
use vstd::string::StringSliceAdditionalSpecFns;
use vstd::utf8::*;

use crate::semantic::{
    QuantityOccurrence, first_byte_from, lemma_first_byte_from, split_from, Definition, DefinitionKind, SemanticIndex,
    ValueType,
};
use crate::sorting::{lemma_bytes_lt_irrefl, lemma_bytes_lt_total, lemma_bytes_lt_trans};
use crate::text::{
    lemma_encode_injective, ascii_alnum, bytes_less, bytes_lt, bytes_of, find_byte, is_ascii_alnum, is_ascii_digit,
    lemma_ascii_boundaries, lemma_trim_end_boundary, lemma_trim_start_boundary,
    lemma_view_from_bytes, owned_substr, substr, trim_end_pos, trim_end_to, trim_start_from,
    trim_start_pos, ws_len_at, ws_len_at_exec, rfind_byte, spec_is_path_prefix, is_path_prefix_range,
    is_ascii_alpha, ascii_alpha,
};
use crate::paths::{join, join_spec, path_starts_with, pv};
use crate::document::{atml_parse, ParseErrorKind};
use crate::{Analysis, analysis_of, analyze, lemma_analysis_has_index, line_start_before, last_byte_before, lemma_last_byte_before, ByteRange};

verus! {

broadcast use vstd::seq_lib::group_to_multiset_ensures;

#[derive(Debug, Clone, Copy, PartialEq, Eq, Hash, Structural)]
pub enum CompletionKind {
    Enum,
    EnumMember,
    Key,
    Table,
    Unit,
    Value,
}

#[derive(Debug, Clone, PartialEq, Eq)]
pub struct CompletionItem {
    pub label: String,
    pub kind: CompletionKind,
    pub detail: String,
    pub insert_text: String,
    pub replace: ByteRange,
    pub sort_text: String,
}

/// A completion item as values: label, kind, detail, insert text, replaced
/// range and sort text.
pub type ItemView = (Seq<char>, CompletionKind, Seq<char>, Seq<char>, ByteRange, Seq<char>);

pub open spec fn item_view(i: CompletionItem) -> ItemView {
    (i.label@, i.kind, i.detail@, i.insert_text@, i.replace, i.sort_text@)
}

pub open spec fn item_views(s: Seq<CompletionItem>) -> Seq<ItemView> {
    s.map_values(|i: CompletionItem| item_view(i))
}

/// Item order: by sort text, then by label, both compared as bytes.
pub open spec fn item_lt(a: ItemView, b: ItemView) -> bool {
    bytes_lt(encode_utf8(a.5), encode_utf8(b.5)) || (a.5 == b.5 && bytes_lt(encode_utf8(a.0), encode_utf8(b.0)))
}

/// No item is ordered before an earlier one.
pub open spec fn items_sorted(s: Seq<ItemView>) -> bool {
    forall|i: int, j: int| 0 <= i < j < s.len() ==> !item_lt(s[j], s[i])
}

/// Holds of the items whose sort text and label are `k`.
pub open spec fn item_key_is(k: (Seq<char>, Seq<char>)) -> spec_fn(ItemView) -> bool {
    |v: ItemView| (v.5, v.0) == k
}

/// `r` holds the items of `candidates`, sorted; items with the same sort text
/// and label keep their order.
pub open spec fn sorted_items_of(r: Seq<ItemView>, candidates: Seq<ItemView>) -> bool {
    &&& items_sorted(r)
    &&& r.to_multiset() == candidates.to_multiset()
    &&& forall|k: (Seq<char>, Seq<char>)| #[trigger] r.filter(item_key_is(k)) == candidates.filter(item_key_is(k))
}

proof fn lemma_filter_single<A>(x: A, p: spec_fn(A) -> bool)
    ensures
        seq![x].filter(p) == if p(x) {
            seq![x]
        } else {
            Seq::<A>::empty()
        },
{
    reveal(Seq::filter);
    assert(seq![x].drop_last() =~= Seq::<A>::empty());
    assert(Seq::<A>::empty().filter(p) =~= Seq::<A>::empty());
}

/// Items ordered strictly before another have another key.
proof fn lemma_item_lt_key(a: ItemView, b: ItemView)
    requires
        item_lt(a, b),
    ensures
        (a.5, a.0) != (b.5, b.0),
{
    if (a.5, a.0) == (b.5, b.0) {
        lemma_bytes_lt_irrefl(encode_utf8(a.5));
        lemma_bytes_lt_irrefl(encode_utf8(a.0));
    }
}

proof fn lemma_item_lt_asym(a: ItemView, b: ItemView)
    requires
        item_lt(a, b),
    ensures
        !item_lt(b, a),
{
    let (sa, sb) = (encode_utf8(a.5), encode_utf8(b.5));
    let (la, lb) = (encode_utf8(a.0), encode_utf8(b.0));
    if bytes_lt(sa, sb) && bytes_lt(sb, sa) {
        lemma_bytes_lt_trans(sa, sb, sa);
        lemma_bytes_lt_irrefl(sa);
    }
    if a.5 == b.5 {
        lemma_bytes_lt_irrefl(sa);
        if bytes_lt(la, lb) && bytes_lt(lb, la) {
            lemma_bytes_lt_trans(la, lb, la);
            lemma_bytes_lt_irrefl(la);
        }
    }
}

/// `a < b`, and `c` is not below `b`: then `a < c`.
proof fn lemma_item_lt_le(a: ItemView, b: ItemView, c: ItemView)
    requires
        item_lt(a, b),
        !item_lt(c, b),
    ensures
        item_lt(a, c),
{
    let (sa, sb, sc) = (encode_utf8(a.5), encode_utf8(b.5), encode_utf8(c.5));
    let (la, lb, lc) = (encode_utf8(a.0), encode_utf8(b.0), encode_utf8(c.0));
    lemma_bytes_lt_total(sb, sc);
    lemma_bytes_lt_total(lb, lc);
    if sb == sc {
        lemma_encode_injective(b.5, c.5);
    }
    if lb == lc {
        lemma_encode_injective(b.0, c.0);
    }
    if bytes_lt(sa, sb) && bytes_lt(sb, sc) {
        lemma_bytes_lt_trans(sa, sb, sc);
    }
    if bytes_lt(la, lb) && bytes_lt(lb, lc) {
        lemma_bytes_lt_trans(la, lb, lc);
    }
}

fn item_less(a: &CompletionItem, b: &CompletionItem) -> (r: bool)
    ensures
        r == item_lt(item_view(*a), item_view(*b)),
{
    let sa = a.sort_text.as_str().as_bytes();
    let sb = b.sort_text.as_str().as_bytes();
    if bytes_less(sa, sb) {
        return true;
    }
    let same = sa.len() == sb.len() && !bytes_less(sb, sa);
    proof {
        lemma_bytes_lt_total(sa@, sb@);
        if sa@ == sb@ {
            lemma_encode_injective(a.sort_text@, b.sort_text@);
            lemma_bytes_lt_irrefl(sa@);
        }
    }
    same && bytes_less(a.label.as_str().as_bytes(), b.label.as_str().as_bytes())
}

/// Sorts items by sort text and label; items with equal keys keep their order.
pub fn sort_items(v: Vec<CompletionItem>) -> (r: Vec<CompletionItem>)
    ensures
        sorted_items_of(item_views(r@), item_views(v@)),
{
    let ghost orig = v@;
    let ghost ov = item_views(orig);
    let mut rest = v;
    let mut out: Vec<CompletionItem> = Vec::new();
    proof {
        assert(rest@ =~= orig.take(orig.len() as int));
        assert forall|k: (Seq<char>, Seq<char>)| #[trigger] item_views(out@).filter(item_key_is(k)) == ov.skip(
            rest@.len() as int,
        ).filter(item_key_is(k)) by {
            assert(item_views(out@) =~= Seq::<ItemView>::empty());
            assert(ov.skip(rest@.len() as int) =~= Seq::<ItemView>::empty());
        }
    }
    while rest.len() > 0
        invariant
            out@.to_multiset().add(rest@.to_multiset()) == orig.to_multiset(),
            items_sorted(item_views(out@)),
            ov == item_views(orig),
            rest@.len() <= orig.len(),
            rest@ == orig.take(rest@.len() as int),
            forall|k: (Seq<char>, Seq<char>)| #[trigger] item_views(out@).filter(item_key_is(k)) == ov.skip(
                rest@.len() as int,
            ).filter(item_key_is(k)),
        decreases rest@.len(),
    {
        let ghost rest0 = rest@;
        let ghost fv0 = item_views(out@);
        let x = rest.pop().unwrap();
        proof {
            assert(rest0 =~= rest@.push(x));
            assert(rest@ =~= orig.take(rest@.len() as int));
            assert(orig[rest@.len() as int] == x);
            assert(ov.skip(rest@.len() as int) =~= seq![item_view(x)] + ov.skip(rest0.len() as int));
        }
        let mut pos: usize = 0;
        while pos < out.len() && item_less(&out[pos], &x)
            invariant
                pos <= out@.len(),
                forall|k: int| 0 <= k < pos ==> item_lt(item_view(#[trigger] out@[k]), item_view(x)),
            decreases out@.len() - pos,
        {
            pos = pos + 1;
        }
        let ghost out0 = out@;
        out.insert(pos, x);
        proof {
            assert(out@ =~= out0.insert(pos as int, x));
            assert(out@.remove(pos as int) =~= out0);
            assert(out@.to_multiset() =~= out0.to_multiset().insert(x));
            let vo = item_views(out@);
            let v0 = item_views(out0);
            let vx = item_view(x);
            assert(vo =~= v0.take(pos as int) + seq![vx] + v0.skip(pos as int));
            assert(v0 =~= v0.take(pos as int) + v0.skip(pos as int));
            assert forall|k: (Seq<char>, Seq<char>)| #[trigger] vo.filter(item_key_is(k)) == ov.skip(
                rest@.len() as int,
            ).filter(item_key_is(k)) by {
                let p = item_key_is(k);
                let a = v0.take(pos as int);
                let b = v0.skip(pos as int);
                Seq::filter_distributes_over_add(a + seq![vx], b, p);
                Seq::filter_distributes_over_add(a, seq![vx], p);
                Seq::filter_distributes_over_add(a, b, p);
                Seq::filter_distributes_over_add(seq![vx], ov.skip(rest0.len() as int), p);
                lemma_filter_single(vx, p);
                assert(fv0.filter(p) == ov.skip(rest0.len() as int).filter(p));
                if p(vx) {
                    assert forall|q: int| 0 <= q < a.len() implies !p(#[trigger] a[q]) by {
                        assert(a[q] == item_view(out0[q]));
                        assert(item_lt(item_view(out0[q]), vx));
                        lemma_item_lt_key(item_view(out0[q]), vx);
                    }
                    assert(a.all(|y: ItemView| !p(y)));
                    a.lemma_all_neg_filter_empty(p);
                    assert(a.filter(p) =~= Seq::<ItemView>::empty());
                }
            }
            assert forall|i: int, j: int| 0 <= i < j < vo.len() implies !item_lt(vo[j], vo[i]) by {
                if j == pos {
                    assert(vo[i] == v0[i]);
                    lemma_item_lt_asym(v0[i], item_view(x));
                } else if i == pos {
                    assert(vo[j] == v0[j - 1]);
                    if pos < out0.len() {
                        assert(!item_lt(v0[pos as int], item_view(x)));
                        if item_lt(v0[j - 1], item_view(x)) {
                            if j - 1 > pos {
                                assert(!item_lt(v0[j - 1], v0[pos as int]));
                                lemma_item_lt_le(v0[j - 1], item_view(x), v0[pos as int]);
                            }
                        }
                    }
                } else {
                    let i0 = if i < pos { i } else { i - 1 };
                    let j0 = if j < pos { j } else { j - 1 };
                    assert(vo[i] == v0[i0] && vo[j] == v0[j0]);
                }
            }
        }
    }
    proof {
        assert(out@.to_multiset() =~= orig.to_multiset());
        crate::sorting::lemma_map_multiset(out@, orig, |i: CompletionItem| item_view(i));
        assert(ov.skip(0) =~= ov);
    }
    out
}

// ---------------------------------------------------------------------------
// Line scanners
// ---------------------------------------------------------------------------
/// Scanning `b` from `i`, inside a basic string (`basic`, with a pending
/// escape `escaped`) or a literal string (`literal`): whether a comment starts
/// outside strings, or a string is still open at the end.
pub open spec fn comment_or_string_from(b: Seq<u8>, i: int, basic: bool, literal: bool, escaped: bool) -> bool
    decreases b.len() - i,
{
    if i < 0 || i >= b.len() {
        basic || literal
    } else if basic {
        if escaped {
            comment_or_string_from(b, i + 1, true, literal, false)
        } else if b[i] == 92 {
            comment_or_string_from(b, i + 1, true, literal, true)
        } else if b[i] == 34 {
            comment_or_string_from(b, i + 1, false, literal, false)
        } else {
            comment_or_string_from(b, i + 1, true, literal, false)
        }
    } else if literal {
        comment_or_string_from(b, i + 1, false, b[i] != 39, escaped)
    } else if b[i] == 35 {
        true
    } else if b[i] == 34 {
        comment_or_string_from(b, i + 1, true, false, escaped)
    } else if b[i] == 39 {
        comment_or_string_from(b, i + 1, false, true, escaped)
    } else {
        comment_or_string_from(b, i + 1, false, false, escaped)
    }
}

/// The text ends inside a comment or an unterminated string.
pub open spec fn spec_in_comment_or_string(b: Seq<u8>) -> bool {
    comment_or_string_from(b, 0, false, false, false)
}

pub fn in_comment_or_string(line: &[u8]) -> (r: bool)
    ensures
        r == spec_in_comment_or_string(line@),
{
    let mut basic = false;
    let mut literal = false;
    let mut escaped = false;
    let mut i: usize = 0;
    while i < line.len()
        invariant
            i <= line@.len(),
            spec_in_comment_or_string(line@) == comment_or_string_from(line@, i as int, basic, literal, escaped),
        decreases line@.len() - i,
    {
        let c = line[i];
        if basic {
            if escaped {
                escaped = false;
            } else if c == 92 {
                escaped = true;
            } else if c == 34 {
                basic = false;
            }
        } else if literal {
            if c == 39 {
                literal = false;
            }
        } else if c == 35 {
            return true;
        } else if c == 34 {
            basic = true;
        } else if c == 39 {
            literal = true;
        }
        i = i + 1;
    }
    basic || literal
}

/// End of the run of digits and `_` that starts at `i`.
pub open spec fn digits_end(b: Seq<u8>, i: int) -> int
    decreases b.len() - i,
{
    if 0 <= i < b.len() && (is_ascii_digit(b[i]) || b[i] == 95) {
        digits_end(b, i + 1)
    } else {
        i
    }
}

proof fn lemma_digits_end(b: Seq<u8>, i: int)
    requires
        0 <= i <= b.len(),
    ensures
        i <= digits_end(b, i) <= b.len(),
    decreases b.len() - i,
{
    if i < b.len() && (is_ascii_digit(b[i]) || b[i] == 95) {
        lemma_digits_end(b, i + 1);
    }
}

fn digits_end_exec(b: &[u8], i: usize) -> (r: usize)
    requires
        i <= b@.len(),
    ensures
        r == digits_end(b@, i as int),
        i <= r <= b@.len(),
{
    proof {
        lemma_digits_end(b@, i as int);
    }
    let mut k = i;
    while k < b.len() && ((48 <= b[k] && b[k] <= 57) || b[k] == 95)
        invariant
            i <= k <= b@.len(),
            digits_end(b@, i as int) == digits_end(b@, k as int),
        decreases b@.len() - k,
    {
        k = k + 1;
    }
    k
}

/// Length of the number at the start of `b`: an optional sign, digits (with
/// `_`), an optional fraction, and an exponent when digits follow it.
pub open spec fn spec_numeric_prefix_len(b: Seq<u8>) -> Option<int> {
    let sign = if b.len() > 0 && (b[0] == 43 || b[0] == 45) { 1int } else { 0int };
    let integer_end = digits_end(b, sign);
    if integer_end == sign {
        None
    } else {
        let fraction_end = if integer_end < b.len() && b[integer_end] == 46 {
            digits_end(b, integer_end + 1)
        } else {
            integer_end
        };
        if fraction_end < b.len() && (b[fraction_end] == 101 || b[fraction_end] == 69) {
            let digit_start = if fraction_end + 1 < b.len() && (b[fraction_end + 1] == 43 || b[fraction_end + 1] == 45) {
                fraction_end + 2
            } else {
                fraction_end + 1
            };
            if digits_end(b, digit_start) > digit_start {
                Some(digits_end(b, digit_start))
            } else {
                Some(fraction_end)
            }
        } else {
            Some(fraction_end)
        }
    }
}

pub fn numeric_prefix_len(token: &[u8]) -> (r: Option<usize>)
    ensures
        match r {
            Some(n) => spec_numeric_prefix_len(token@) == Some(n as int) && n <= token@.len(),
            None => spec_numeric_prefix_len(token@) is None,
        },
{
    let len = token.len();
    let sign: usize = if len > 0 && (token[0] == 43 || token[0] == 45) { 1 } else { 0 };
    let integer_end = digits_end_exec(token, sign);
    if integer_end == sign {
        return None;
    }
    let fraction_end = if integer_end < len && token[integer_end] == 46 {
        digits_end_exec(token, integer_end + 1)
    } else {
        integer_end
    };
    if fraction_end < len && (token[fraction_end] == 101 || token[fraction_end] == 69) {
        let digit_start = if fraction_end + 1 < len && (token[fraction_end + 1] == 43 || token[fraction_end + 1] == 45) {
            fraction_end + 2
        } else {
            fraction_end + 1
        };
        let end = digits_end_exec(token, digit_start);
        if end > digit_start {
            Some(end)
        } else {
            Some(fraction_end)
        }
    } else {
        Some(fraction_end)
    }
}

/// The greatest character boundary at or before `offset`.
pub open spec fn floor_boundary(b: Seq<u8>, offset: int) -> int
    decreases offset,
{
    if offset <= 0 || is_char_boundary(b, offset) {
        offset
    } else {
        floor_boundary(b, offset - 1)
    }
}

/// The greatest character boundary of `text` at or before `offset` (the end
/// of the text when `offset` lies past it).
pub fn floor_char_boundary(text: &str, offset: usize) -> (r: usize)
    ensures
        r == floor_boundary(text.spec_bytes(), offset as int),
        r <= offset,
        is_char_boundary(text.spec_bytes(), r as int),
{
    let mut o = offset;
    while o > 0 && !text.is_char_boundary(o)
        invariant
            o <= offset,
            floor_boundary(text.spec_bytes(), offset as int) == floor_boundary(text.spec_bytes(), o as int),
        decreases o,
    {
        o = o - 1;
    }
    proof {
        crate::text::lemma_view_from_bytes(text);
        is_char_boundary_start_end_of_seq(text.spec_bytes());
    }
    o
}

// ---------------------------------------------------------------------------
// Enum members after `Enum::`
// ---------------------------------------------------------------------------
/// The last `::` in `l` that starts at or before `x`.
pub open spec fn last_double_colon(l: Seq<u8>, x: int) -> Option<int>
    decreases x + 1,
{
    if x < 0 {
        None
    } else if x + 1 < l.len() && l[x] == 58 && l[x + 1] == 58 {
        Some(x)
    } else {
        last_double_colon(l, x - 1)
    }
}

/// A character that ends the enum name before `::`: `=`, `[`, `,`, `{` or White_Space.
pub open spec fn is_enum_stop(l: Seq<u8>, p: int) -> bool {
    l[p] == 61 || l[p] == 91 || l[p] == 44 || l[p] == 123 || ws_len_at(l, p) > 0
}

/// The last position before `x` where an enum-stop character starts.
pub open spec fn last_enum_stop(l: Seq<u8>, x: int) -> Option<int>
    decreases x,
{
    if x <= 0 {
        None
    } else if is_enum_stop(l, x - 1) {
        Some(x - 1)
    } else {
        last_enum_stop(l, x - 1)
    }
}

proof fn lemma_last_enum_stop(l: Seq<u8>, x: int)
    requires
        x <= l.len(),
    ensures
        last_enum_stop(l, x) matches Some(p) ==> 0 <= p < x && is_enum_stop(l, p),
    decreases x,
{
    if x > 0 && !is_enum_stop(l, x - 1) {
        lemma_last_enum_stop(l, x - 1);
    }
}

/// `b` without leading and trailing White_Space.
pub open spec fn trimmed(b: Seq<u8>) -> Seq<u8> {
    let start = trim_start_pos(b, 0, b.len() as int);
    b.subrange(start, trim_end_pos(b, start, b.len() as int))
}

/// End of the run of quotes (`"` or `'`) that starts at `i`.
pub open spec fn quotes_end(b: Seq<u8>, i: int) -> int
    decreases b.len() - i,
{
    if 0 <= i < b.len() && (b[i] == 34 || b[i] == 39) {
        quotes_end(b, i + 1)
    } else {
        i
    }
}

/// Start of the run of quotes that ends at `j`, not before `lo`.
pub open spec fn quotes_start(b: Seq<u8>, lo: int, j: int) -> int
    decreases j - lo,
{
    if lo < j && j <= b.len() && (b[j - 1] == 34 || b[j - 1] == 39) {
        quotes_start(b, lo, j - 1)
    } else {
        j
    }
}

/// `b` without leading and trailing quotes.
pub open spec fn quote_trimmed(b: Seq<u8>) -> Seq<u8> {
    let start = quotes_end(b, 0);
    b.subrange(start, quotes_start(b, start, b.len() as int))
}

/// Where the enum name before the last `::` starts.
pub open spec fn enum_name_start(l: Seq<u8>, separator: int) -> int {
    match last_enum_stop(l, separator) {
        Some(p) => p + 1,
        None => 0,
    }
}

/// The enum name is cut inside a multi-byte White_Space character, on which
/// this completion cannot slice the line.
pub open spec fn enum_name_splits_char(l: Seq<u8>) -> bool {
    match last_double_colon(l, l.len() - 2) {
        Some(separator) => match last_enum_stop(l, separator) {
            Some(p) => ws_len_at(l, p) >= 2,
            None => false,
        },
        None => false,
    }
}

/// An enum member of `enum_path` whose name starts with `typed`.
pub open spec fn member_matches(d: Definition, enum_path: Seq<Seq<u8>>, typed: Seq<u8>) -> bool {
    &&& d.kind == DefinitionKind::EnumMember
    &&& d.value_type == ValueType::EnumReference
    &&& d.path@.len() == enum_path.len() + 1
    &&& forall|i: int| 0 <= i < enum_path.len() ==> bytes_of(#[trigger] d.path@[i]) == enum_path[i]
    &&& typed.is_prefix_of(bytes_of(d.path@.last()))
}

pub open spec fn member_item(d: Definition, detail: Seq<char>, replace: ByteRange) -> ItemView {
    (d.path@.last()@, CompletionKind::EnumMember, detail, d.path@.last()@, replace, "0"@)
}

/// The member items of the first `n` definitions, in order.
pub open spec fn member_candidates(
    defs: Seq<Definition>,
    enum_path: Seq<Seq<u8>>,
    typed: Seq<u8>,
    detail: Seq<char>,
    replace: ByteRange,
    n: int,
) -> Seq<ItemView>
    decreases n,
{
    if n <= 0 {
        Seq::empty()
    } else {
        let rest = member_candidates(defs, enum_path, typed, detail, replace, n - 1);
        if member_matches(defs[n - 1], enum_path, typed) {
            rest.push(member_item(defs[n - 1], detail, replace))
        } else {
            rest
        }
    }
}

/// The enum-member completions of a line, unsorted: `None` when the line has
/// no `::`; no items when the enum name is empty or the typed member is not
/// made of letters, digits and `_`.
pub open spec fn enum_member_completion(l: Seq<u8>, line_start: int, offset: int, defs: Seq<Definition>) -> Option<Seq<ItemView>> {
    match last_double_colon(l, l.len() - 2) {
        None => None,
        Some(separator) => {
            let name = trimmed(l.subrange(enum_name_start(l, separator), separator));
            let typed = l.subrange(separator + 2, l.len() as int);
            if name.len() == 0 || !(forall|i: int| 0 <= i < typed.len() ==> is_ascii_alnum(#[trigger] typed[i]) || typed[i] == 95) {
                Some(Seq::empty())
            } else {
                let enum_path = split_from(name, 0, 46).map_values(|segment: Seq<u8>| quote_trimmed(segment));
                let replace = ByteRange { start: (line_start + separator + 2) as usize, end: offset as usize };
                Some(member_candidates(defs, enum_path, typed, "member of enum "@ + decode_utf8(name), replace, defs.len() as int))
            }
        },
    }
}

fn last_double_colon_exec(l: &[u8]) -> (r: Option<usize>)
    ensures
        match r {
            Some(i) => last_double_colon(l@, l@.len() - 2) == Some(i as int) && i + 2 <= l@.len() && l@[i as int]
                == 58 && l@[i + 1] == 58,
            None => last_double_colon(l@, l@.len() - 2) is None,
        },
{
    if l.len() < 2 {
        return None;
    }
    let mut x = l.len() - 2;
    loop
        invariant
            x + 2 <= l@.len(),
            last_double_colon(l@, l@.len() - 2) == last_double_colon(l@, x as int),
        decreases x,
    {
        if l[x] == 58 && l[x + 1] == 58 {
            return Some(x);
        }
        if x == 0 {
            assert(last_double_colon(l@, -1) is None);
            return None;
        }
        x = x - 1;
    }
}

fn last_enum_stop_exec(l: &[u8], x: usize) -> (r: Option<usize>)
    requires
        x <= l@.len(),
    ensures
        match r {
            Some(p) => last_enum_stop(l@, x as int) == Some(p as int) && p < x,
            None => last_enum_stop(l@, x as int) is None,
        },
{
    let mut k = x;
    while k > 0
        invariant
            k <= x <= l@.len(),
            last_enum_stop(l@, x as int) == last_enum_stop(l@, k as int),
        decreases k,
    {
        let c = l[k - 1];
        if c == 61 || c == 91 || c == 44 || c == 123 || ws_len_at_exec(l, k - 1) > 0 {
            return Some(k - 1);
        }
        k = k - 1;
    }
    None
}

/// `text` without leading and trailing quotes, owned.
fn quote_trimmed_string(text: &str) -> (r: String)
    ensures
        bytes_of(r) == quote_trimmed(text.spec_bytes()),
{
    let b = text.as_bytes();
    proof {
        lemma_view_from_bytes(text);
        is_char_boundary_start_end_of_seq(b@);
    }
    let mut start: usize = 0;
    while start < b.len() && (b[start] == 34 || b[start] == 39)
        invariant
            start <= b@.len(),
            quotes_end(b@, 0) == quotes_end(b@, start as int),
            start == 0 || b@[start - 1] == 34 || b@[start - 1] == 39,
        decreases b@.len() - start,
    {
        start = start + 1;
    }
    let mut end = b.len();
    while end > start && (b[end - 1] == 34 || b[end - 1] == 39)
        invariant
            start <= end <= b@.len(),
            quotes_start(b@, start as int, b@.len() as int) == quotes_start(b@, start as int, end as int),
            end == b@.len() || b@[end as int] == 34 || b@[end as int] == 39,
        decreases end,
    {
        end = end - 1;
    }
    proof {
        if start > 0 {
            lemma_ascii_boundaries(b@, start - 1);
        }
        if end < b@.len() {
            lemma_ascii_boundaries(b@, end as int);
        }
    }
    owned_substr(text, start, end)
}

/// The segments of an enum name, split at `.` and without quotes.
fn enum_path_segments(name: &str) -> (r: Vec<String>)
    ensures
        r@.len() == split_from(name.spec_bytes(), 0, 46).len(),
        forall|i: int| 0 <= i < r@.len() ==> bytes_of(#[trigger] r@[i]) == quote_trimmed(split_from(name.spec_bytes(), 0, 46)[i]),
{
    let b = name.as_bytes();
    let ghost bs = b@;
    proof {
        lemma_view_from_bytes(name);
    }
    let mut segments: Vec<String> = Vec::new();
    let ghost mut pieces: Seq<Seq<u8>> = Seq::empty();
    let mut start: usize = 0;
    loop
        invariant
            b@ == bs,
            bs == name.spec_bytes(),
            valid_utf8(bs),
            start <= bs.len(),
            start == 0 || bs[start - 1] == 46,
            pieces + split_from(bs, start as int, 46) == split_from(bs, 0, 46),
            segments@.len() == pieces.len(),
            forall|k: int| 0 <= k < pieces.len() ==> bytes_of(#[trigger] segments@[k]) == quote_trimmed(pieces[k]),
        decreases bs.len() - start,
    {
        proof {
            lemma_first_byte_from(bs, start as int, 46);
            if start > 0 {
                lemma_ascii_boundaries(bs, start - 1);
            } else {
                is_char_boundary_start_end_of_seq(bs);
            }
        }
        let found = find_byte(b, start, b.len(), 46);
        let end = match found {
            Some(i) => i,
            None => b.len(),
        };
        proof {
            if end < bs.len() {
                lemma_ascii_boundaries(bs, end as int);
            } else {
                is_char_boundary_start_end_of_seq(bs);
            }
        }
        let piece = substr(name, start, end);
        let ghost p = bs.subrange(start as int, end as int);
        let ghost old_pieces = pieces;
        segments.push(quote_trimmed_string(piece));
        proof {
            pieces = pieces.push(p);
            assert(forall|k: int| 0 <= k < old_pieces.len() ==> #[trigger] pieces[k] == old_pieces[k]);
            if found is Some {
                assert(old_pieces + split_from(bs, start as int, 46) =~= pieces + split_from(bs, end + 1, 46));
            }
        }
        match found {
            Some(i) => {
                start = i + 1;
            },
            None => {
                proof {
                    assert(split_from(bs, start as int, 46) == seq![p]);
                    assert(pieces =~= split_from(bs, 0, 46));
                }
                return segments;
            },
        }
    }
}

/// `prefix` is a prefix of `s`, as bytes.
fn starts_with(s: &str, prefix: &[u8]) -> (r: bool)
    ensures
        r == prefix@.is_prefix_of(s.spec_bytes()),
{
    let b = s.as_bytes();
    if prefix.len() > b.len() {
        return false;
    }
    let mut i: usize = 0;
    while i < prefix.len()
        invariant
            prefix@.len() <= b@.len(),
            b@ == s.spec_bytes(),
            i <= prefix@.len(),
            forall|k: int| 0 <= k < i ==> prefix@[k] == b@[k],
        decreases prefix@.len() - i,
    {
        if prefix[i] != b[i] {
            return false;
        }
        i = i + 1;
    }
    assert(prefix@ =~= b@.subrange(0, prefix@.len() as int));
    true
}

fn complete_enum_members(line: &str, line_start: usize, offset: usize, index: &SemanticIndex) -> (r: Option<Vec<CompletionItem>>)
    requires
        !enum_name_splits_char(line.spec_bytes()),
        line_start + line.spec_bytes().len() <= usize::MAX,
    ensures
        match r {
            None => enum_member_completion(line.spec_bytes(), line_start as int, offset as int, index.definitions@) is None,
            Some(items) => enum_member_completion(line.spec_bytes(), line_start as int, offset as int, index.definitions@) matches Some(c)
                && sorted_items_of(item_views(items@), c),
        },
{
    let l = line.as_bytes();
    let ghost ls = l@;
    proof {
        lemma_view_from_bytes(line);
        is_char_boundary_start_end_of_seq(ls);
    }
    let separator = match last_double_colon_exec(l) {
        Some(s) => s,
        None => return None,
    };
    let enum_start = match last_enum_stop_exec(l, separator) {
        Some(p) => p + 1,
        None => 0,
    };
    proof {
        lemma_last_enum_stop(ls, separator as int);
        if let Some(p) = last_enum_stop(ls, separator as int) {
            assert(ws_len_at(ls, p) <= 1);
            assert(ls[p] < 128);
            lemma_ascii_boundaries(ls, p);
        }
        lemma_ascii_boundaries(ls, separator as int);
        lemma_ascii_boundaries(ls, separator + 1);
    }
    let raw_name = substr(line, enum_start, separator);
    let rb = raw_name.as_bytes();
    proof {
        lemma_view_from_bytes(raw_name);
        is_char_boundary_start_end_of_seq(rb@);
    }
    let ts = trim_start_from(rb, 0, rb.len());
    let te = trim_end_to(rb, ts, rb.len());
    proof {
        lemma_trim_start_boundary(rb@, 0, rb@.len() as int);
        lemma_trim_end_boundary(rb@, ts as int, rb@.len() as int);
    }
    let enum_name = substr(raw_name, ts, te);
    proof {
        assert(enum_name.spec_bytes() == trimmed(ls.subrange(enum_start as int, separator as int)));
        lemma_view_from_bytes(enum_name);
    }
    let typed_text = substr(line, separator + 2, l.len());
    let typed = typed_text.as_bytes();
    let mut all_name_bytes = true;
    let mut k: usize = 0;
    while k < typed.len()
        invariant
            k <= typed@.len(),
            all_name_bytes == forall|i: int| 0 <= i < k ==> is_ascii_alnum(#[trigger] typed@[i]) || typed@[i] == 95,
        decreases typed@.len() - k,
    {
        all_name_bytes = all_name_bytes && (ascii_alnum(typed[k]) || typed[k] == 95);
        k = k + 1;
    }
    if enum_name.as_bytes().len() == 0 || !all_name_bytes {
        proof {
            assert(enum_start == enum_name_start(ls, separator as int));
            assert(typed@ == ls.subrange(separator + 2, ls.len() as int));
            assert(item_views(Seq::<CompletionItem>::empty()) =~= Seq::<ItemView>::empty());
        }
        return Some(Vec::new());
    }
    let enum_path = enum_path_segments(enum_name);
    let ghost spath = split_from(enum_name.spec_bytes(), 0, 46).map_values(|segment: Seq<u8>| quote_trimmed(segment));
    let replace = ByteRange { start: line_start + separator + 2, end: offset };
    let mut detail_text = String::new();
    detail_text.append("member of enum ");
    detail_text.append(enum_name);
    let ghost detail = detail_text@;
    let ghost defs = index.definitions@;
    let mut items: Vec<CompletionItem> = Vec::new();
    let mut i: usize = 0;
    while i < index.definitions.len()
        invariant
            defs == index.definitions@,
            i <= defs.len(),
            enum_path@.len() == spath.len(),
            forall|j: int| 0 <= j < spath.len() ==> bytes_of(#[trigger] enum_path@[j]) == spath[j],
            item_views(items@) == member_candidates(defs, spath, typed@, detail, replace, i as int),
            detail_text@ == detail,
        decreases defs.len() - i,
    {
        let d = &index.definitions[i];
        let mut matches = d.kind == DefinitionKind::EnumMember && d.value_type == ValueType::EnumReference
            && d.path.len() > 0 && d.path.len() - 1 == enum_path.len();
        if matches {
            let mut j: usize = 0;
            while j < enum_path.len()
                invariant
                    d == &defs[i as int],
                    d.path@.len() == enum_path@.len() + 1,
                    j <= enum_path@.len(),
                    matches == forall|m: int| 0 <= m < j ==> bytes_of(#[trigger] d.path@[m]) == bytes_of(enum_path@[m]),
                decreases enum_path@.len() - j,
            {
                let same = crate::text::string_bytes(&d.path[j]).len() == crate::text::string_bytes(&enum_path[j]).len()
                    && starts_with(d.path[j].as_str(), crate::text::string_bytes(&enum_path[j]));
                proof {
                    if same {
                        assert(bytes_of(d.path@[j as int]) =~= bytes_of(enum_path@[j as int]));
                    }
                }
                matches = matches && same;
                j = j + 1;
            }
            if matches {
                matches = starts_with(d.path[d.path.len() - 1].as_str(), typed);
            }
        }
        proof {
            assert(member_matches(defs[i as int], spath, typed@) == matches);
        }
        if matches {
            let label = d.path[d.path.len() - 1].clone();
            let ghost before = items@;
            items.push(CompletionItem {
                label: label.clone(),
                kind: CompletionKind::EnumMember,
                detail: detail_text.clone(),
                insert_text: label,
                replace,
                sort_text: String::from_str("0"),
            });
            proof {
                let last = items@.len() - 1;
                assert(items@[last].label@ == defs[i as int].path@.last()@);
                assert(items@[last].detail@ == detail);
                assert(items@[last].sort_text@ == "0"@);
                assert(item_view(items@[last]) == member_item(defs[i as int], detail, replace));
                assert(item_views(items@) =~= item_views(before).push(member_item(defs[i as int], detail, replace)));
            }
        }
        i = i + 1;
    }
    let sorted = sort_items(items);
    proof {
        assert(detail == "member of enum "@ + decode_utf8(trimmed(ls.subrange(enum_name_start(ls, separator as int), separator as int))));
    }
    Some(sorted)
}

// ---------------------------------------------------------------------------
// Parent tables in `[child : parent, ...]`
// ---------------------------------------------------------------------------
/// Some item among `items` has this label.
pub open spec fn has_label(items: Seq<ItemView>, label: Seq<char>) -> bool {
    exists|j: int| 0 <= j < items.len() && (#[trigger] items[j]).0 == label
}

/// A key path written with dots.
pub open spec fn dotted(p: Seq<String>) -> Seq<char> {
    join_spec(pv(p), "."@)
}

pub open spec fn table_item(label: Seq<char>, replace: ByteRange) -> ItemView {
    (label, CompletionKind::Table, "ATML parent table"@, label, replace, "0"@)
}

/// One item per standard-table path starting with `typed`, among the first
/// `n` definitions, in order of first occurrence.
pub open spec fn table_candidates(defs: Seq<Definition>, typed: Seq<u8>, replace: ByteRange, n: int) -> Seq<ItemView>
    decreases n,
{
    if n <= 0 {
        Seq::empty()
    } else {
        let rest = table_candidates(defs, typed, replace, n - 1);
        let label = dotted(defs[n - 1].path@);
        if defs[n - 1].kind == DefinitionKind::Table && typed.is_prefix_of(encode_utf8(label)) && !has_label(rest, label) {
            rest.push(table_item(label, replace))
        } else {
            rest
        }
    }
}

/// The parent-table completions of a line, unsorted: `None` unless the line
/// is an unclosed table header with a `:`; no items when the typed parent is
/// not a path prefix.
pub open spec fn parent_table_completion(l: Seq<u8>, line_start: int, offset: int, defs: Seq<Definition>) -> Option<Seq<ItemView>> {
    let t = trim_start_pos(l, 0, l.len() as int);
    if !(t < l.len() && l[t] == 91) || (exists|j: int| t <= j < l.len() && l[j] == 93) {
        None
    } else {
        match first_byte_from(l, 0, 58) {
            None => None,
            Some(colon) => {
                let segment_start = match last_byte_before(l, l.len() as int, 44) {
                    Some(q) => if q > colon { q + 1 } else { colon + 1 },
                    None => colon + 1,
                };
                let typed_start = trim_start_pos(l, segment_start, l.len() as int);
                let typed = l.subrange(typed_start, trim_end_pos(l, typed_start, l.len() as int));
                if !spec_is_path_prefix(typed) {
                    Some(Seq::empty())
                } else {
                    let replace = ByteRange { start: (line_start + typed_start) as usize, end: offset as usize };
                    Some(table_candidates(defs, typed, replace, defs.len() as int))
                }
            },
        }
    }
}

fn has_label_exec(items: &Vec<CompletionItem>, label: &String) -> (r: bool)
    ensures
        r == has_label(item_views(items@), label@),
{
    let mut j: usize = 0;
    while j < items.len()
        invariant
            j <= items@.len(),
            forall|k: int| 0 <= k < j ==> items@[k].label@ != label@,
        decreases items@.len() - j,
    {
        if items[j].label == *label {
            assert(item_views(items@)[j as int].0 == label@);
            return true;
        }
        j = j + 1;
    }
    proof {
        assert forall|k: int| 0 <= k < item_views(items@).len() implies (#[trigger] item_views(items@)[k]).0 != label@ by {
            assert(item_views(items@)[k].0 == items@[k].label@);
        }
    }
    false
}

fn complete_parent_tables(line: &str, line_start: usize, offset: usize, index: &SemanticIndex) -> (r: Option<Vec<CompletionItem>>)
    requires
        line_start + line.spec_bytes().len() <= usize::MAX,
    ensures
        match r {
            None => parent_table_completion(line.spec_bytes(), line_start as int, offset as int, index.definitions@) is None,
            Some(items) => parent_table_completion(line.spec_bytes(), line_start as int, offset as int, index.definitions@) matches Some(c)
                && sorted_items_of(item_views(items@), c),
        },
{
    let l = line.as_bytes();
    let ghost ls = l@;
    let len = l.len();
    let t = trim_start_from(l, 0, len);
    if !(t < len && l[t] == 91) {
        return None;
    }
    match find_byte(l, t, len, 93) {
        Some(_) => return None,
        None => {},
    }
    let colon = match find_byte(l, 0, len, 58) {
        Some(c) => c,
        None => {
            proof {
                lemma_first_byte_from(ls, 0, 58);
            }
            return None;
        },
    };
    proof {
        lemma_first_byte_from(ls, 0, 58);
        lemma_last_byte_before(ls, len as int, 44);
    }
    let segment_start = match rfind_byte(l, colon + 1, len, 44) {
        Some(q) => q + 1,
        None => colon + 1,
    };
    proof {
        assert(segment_start == match last_byte_before(ls, ls.len() as int, 44) {
            Some(q) => if q > colon { q + 1 } else { colon + 1 },
            None => colon + 1,
        });
    }
    let typed_start = trim_start_from(l, segment_start, len);
    let typed_end = trim_end_to(l, typed_start, len);
    let path_like = is_path_prefix_range(l, typed_start, typed_end);
    if !path_like {
        proof {
            assert(item_views(Seq::<CompletionItem>::empty()) =~= Seq::<ItemView>::empty());
        }
        return Some(Vec::new());
    }
    let replace = ByteRange { start: line_start + typed_start, end: offset };
    let ghost typed = ls.subrange(typed_start as int, typed_end as int);
    let ghost defs = index.definitions@;
    let mut items: Vec<CompletionItem> = Vec::new();
    let mut i: usize = 0;
    while i < index.definitions.len()
        invariant
            defs == index.definitions@,
            ls == l@,
            typed_start <= typed_end <= ls.len(),
            typed == ls.subrange(typed_start as int, typed_end as int),
            i <= defs.len(),
            item_views(items@) == table_candidates(defs, typed, replace, i as int),
        decreases defs.len() - i,
    {
        let d = &index.definitions[i];
        if d.kind == DefinitionKind::Table {
            let label = join(d.path.as_slice(), ".");
            let fits = bytes_prefix(l, typed_start, typed_end, label.as_str());
            if fits && !has_label_exec(&items, &label) {
                let ghost before = items@;
                items.push(CompletionItem {
                    label: label.clone(),
                    kind: CompletionKind::Table,
                    detail: String::from_str("ATML parent table"),
                    insert_text: label,
                    replace,
                    sort_text: String::from_str("0"),
                });
                proof {
                    assert(item_views(items@) =~= item_views(before).push(table_item(dotted(defs[i as int].path@), replace)));
                }
            }
        }
        i = i + 1;
    }
    Some(sort_items(items))
}

/// `b[from..to]` is a prefix of the bytes of `s`.
fn bytes_prefix(b: &[u8], from: usize, to: usize, s: &str) -> (r: bool)
    requires
        from <= to <= b@.len(),
    ensures
        r == b@.subrange(from as int, to as int).is_prefix_of(s.spec_bytes()),
{
    let t = s.as_bytes();
    if to - from > t.len() {
        return false;
    }
    let mut i: usize = 0;
    while i < to - from
        invariant
            from <= to <= b@.len(),
            to - from <= t@.len(),
            t@ == s.spec_bytes(),
            i <= to - from,
            forall|k: int| 0 <= k < i ==> b@[from + k] == t@[k],
        decreases to - from - i,
    {
        if b[from + i] != t[i] {
            assert(b@.subrange(from as int, to as int)[i as int] != t@[i as int]);
            return false;
        }
        i = i + 1;
    }
    assert(b@.subrange(from as int, to as int) =~= t@.subrange(0, to - from));
    true
}

// ---------------------------------------------------------------------------
// Units after a number
// ---------------------------------------------------------------------------
/// The last `/` or `*` in `b[from..x]`.
pub open spec fn last_unit_separator(b: Seq<u8>, from: int, x: int) -> Option<int>
    decreases x - from,
{
    if x <= from {
        None
    } else if b[x - 1] == 47 || b[x - 1] == 42 {
        Some(x - 1)
    } else {
        last_unit_separator(b, from, x - 1)
    }
}

pub open spec fn unit_item(unit: Seq<char>, replace: ByteRange) -> ItemView {
    (unit, CompletionKind::Unit, "unit used in this document"@, unit, replace, "0"@)
}

/// `items` with an item for `unit` added, unless it is already there or does
/// not start with `typed`.
pub open spec fn with_unit(items: Seq<ItemView>, unit: Seq<char>, typed: Seq<u8>, replace: ByteRange) -> Seq<ItemView> {
    if typed.is_prefix_of(encode_utf8(unit)) && !has_label(items, unit) {
        items.push(unit_item(unit, replace))
    } else {
        items
    }
}

/// One item per unit or super-unit of the first `n` quantities that starts
/// with `typed`, in order of first occurrence.
pub open spec fn unit_candidates(qs: Seq<QuantityOccurrence>, typed: Seq<u8>, replace: ByteRange, n: int) -> Seq<ItemView>
    decreases n,
{
    if n <= 0 {
        Seq::empty()
    } else {
        let q = qs[n - 1];
        let with_primary = with_unit(unit_candidates(qs, typed, replace, n - 1), q.unit@, typed, replace);
        match q.super_unit {
            Some(u) => with_unit(with_primary, u@, typed, replace),
            None => with_primary,
        }
    }
}

/// Every byte is an ASCII letter.
pub open spec fn all_letters(b: Seq<u8>) -> bool {
    forall|i: int| 0 <= i < b.len() ==> is_ascii_alpha(#[trigger] b[i])
}

/// The unit completions of a line, unsorted: `None` unless the text after the
/// last `=` is a number followed by letters (after an optional `/` or `*`).
pub open spec fn unit_completion(l: Seq<u8>, line_start: int, offset: int, qs: Seq<QuantityOccurrence>) -> Option<Seq<ItemView>> {
    match last_byte_before(l, l.len() as int, 61) {
        None => None,
        Some(equals) => {
            let token_start = trim_start_pos(l, equals + 1, l.len() as int);
            match spec_numeric_prefix_len(l.subrange(token_start, l.len() as int)) {
                None => None,
                Some(number_end) => {
                    let number_end = token_start + number_end;
                    let unit_start = match last_unit_separator(l, number_end, l.len() as int) {
                        Some(p) => p + 1,
                        None => number_end,
                    };
                    let typed = l.subrange(unit_start, l.len() as int);
                    if !all_letters(typed) {
                        None
                    } else {
                        let replace = ByteRange { start: (line_start + unit_start) as usize, end: offset as usize };
                        Some(unit_candidates(qs, typed, replace, qs.len() as int))
                    }
                },
            }
        },
    }
}

fn push_unit(items: &mut Vec<CompletionItem>, unit: &String, l: &[u8], from: usize, to: usize, replace: ByteRange)
    requires
        from <= to <= l@.len(),
    ensures
        item_views(final(items)@) == with_unit(item_views(old(items)@), unit@, l@.subrange(from as int, to as int), replace),
{
    if bytes_prefix(l, from, to, unit.as_str()) && !has_label_exec(items, unit) {
        let ghost before = items@;
        items.push(CompletionItem {
            label: unit.clone(),
            kind: CompletionKind::Unit,
            detail: String::from_str("unit used in this document"),
            insert_text: unit.clone(),
            replace,
            sort_text: String::from_str("0"),
        });
        proof {
            assert(item_views(items@) =~= item_views(before).push(unit_item(unit@, replace)));
        }
    }
}

fn complete_units(line: &str, line_start: usize, offset: usize, index: &SemanticIndex) -> (r: Option<Vec<CompletionItem>>)
    requires
        line_start + line.spec_bytes().len() <= usize::MAX,
    ensures
        match r {
            None => unit_completion(line.spec_bytes(), line_start as int, offset as int, index.quantities@) is None,
            Some(items) => unit_completion(line.spec_bytes(), line_start as int, offset as int, index.quantities@) matches Some(c)
                && sorted_items_of(item_views(items@), c),
        },
{
    let l = line.as_bytes();
    let ghost ls = l@;
    let len = l.len();
    proof {
        lemma_last_byte_before(ls, len as int, 61);
    }
    let equals = match rfind_byte(l, 0, len, 61) {
        Some(e) => e,
        None => return None,
    };
    proof {
        assert(last_byte_before(ls, len as int, 61) == Some(equals as int));
    }
    let token_start = trim_start_from(l, equals + 1, len);
    let token = substr_bytes(l, token_start, len);
    let number_end = match numeric_prefix_len(token.as_slice()) {
        Some(n) => token_start + n,
        None => {
            assert(token@ == ls.subrange(token_start as int, ls.len() as int));
            return None;
        },
    };
    let unit_start = last_unit_separator_exec(l, number_end, len);
    proof {
        assert(token@ == ls.subrange(token_start as int, ls.len() as int));
        assert(spec_numeric_prefix_len(ls.subrange(token_start as int, ls.len() as int)) == Some(number_end - token_start));
        assert(unit_start == match last_unit_separator(ls, number_end as int, ls.len() as int) {
            Some(p) => p + 1,
            None => number_end as int,
        });
    }
    if !all_alpha(l, unit_start, len) {
        return None;
    }
    let replace = ByteRange { start: line_start + unit_start, end: offset };
    let ghost typed = ls.subrange(unit_start as int, len as int);
    let ghost qs = index.quantities@;
    let mut items: Vec<CompletionItem> = Vec::new();
    let mut i: usize = 0;
    while i < index.quantities.len()
        invariant
            qs == index.quantities@,
            ls == l@,
            unit_start <= len == ls.len(),
            typed == ls.subrange(unit_start as int, len as int),
            i <= qs.len(),
            item_views(items@) == unit_candidates(qs, typed, replace, i as int),
        decreases qs.len() - i,
    {
        let q = &index.quantities[i];
        push_unit(&mut items, &q.unit, l, unit_start, len, replace);
        match &q.super_unit {
            Some(u) => push_unit(&mut items, u, l, unit_start, len, replace),
            None => {},
        }
        i = i + 1;
    }
    Some(sort_items(items))
}

/// A copy of `b[from..to]`.
fn substr_bytes(b: &[u8], from: usize, to: usize) -> (r: Vec<u8>)
    requires
        from <= to <= b@.len(),
    ensures
        r@ == b@.subrange(from as int, to as int),
{
    let mut r: Vec<u8> = Vec::new();
    let mut i = from;
    while i < to
        invariant
            from <= i <= to <= b@.len(),
            r@ == b@.subrange(from as int, i as int),
        decreases to - i,
    {
        r.push(b[i]);
        i = i + 1;
        assert(r@ =~= b@.subrange(from as int, i as int));
    }
    r
}

/// Where the unit starts: after the last `/` or `*` after the number, or at its end.
fn last_unit_separator_exec(b: &[u8], from: usize, to: usize) -> (r: usize)
    requires
        from <= to <= b@.len(),
    ensures
        r == match last_unit_separator(b@, from as int, to as int) {
            Some(p) => p + 1,
            None => from as int,
        },
        from <= r <= to,
{
    let mut x = to;
    while x > from
        invariant
            from <= x <= to <= b@.len(),
            last_unit_separator(b@, from as int, to as int) == last_unit_separator(b@, from as int, x as int),
        decreases x,
    {
        if b[x - 1] == 47 || b[x - 1] == 42 {
            return x;
        }
        x = x - 1;
    }
    from
}

/// Every byte of `b[from..to]` is an ASCII letter.
fn all_alpha(b: &[u8], from: usize, to: usize) -> (r: bool)
    requires
        from <= to <= b@.len(),
    ensures
        r == all_letters(b@.subrange(from as int, to as int)),
{
    let ghost t = b@.subrange(from as int, to as int);
    let mut k = from;
    while k < to
        invariant
            from <= k <= to <= b@.len(),
            t == b@.subrange(from as int, to as int),
            forall|i: int| 0 <= i < k - from ==> is_ascii_alpha(#[trigger] t[i]),
        decreases to - k,
    {
        if !ascii_alpha(b[k]) {
            assert(!is_ascii_alpha(t[k - from]));
            return false;
        }
        assert(t[k - from] == b@[k as int]);
        k = k + 1;
    }
    true
}

// ---------------------------------------------------------------------------
// Values and reference paths after `=`
// ---------------------------------------------------------------------------
/// The name `{:?}` gives a value type.
pub open spec fn value_type_debug(t: ValueType) -> Seq<char> {
    match t {
        ValueType::String => "String"@,
        ValueType::Integer => "Integer"@,
        ValueType::Float => "Float"@,
        ValueType::Boolean => "Boolean"@,
        ValueType::OffsetDateTime => "OffsetDateTime"@,
        ValueType::LocalDateTime => "LocalDateTime"@,
        ValueType::LocalDate => "LocalDate"@,
        ValueType::LocalTime => "LocalTime"@,
        ValueType::Array => "Array"@,
        ValueType::Table => "Table"@,
        ValueType::Quantity => "Quantity"@,
        ValueType::EnumReference => "EnumReference"@,
        ValueType::EnumDefinition => "EnumDefinition"@,
        ValueType::Unknown => "Unknown"@,
    }
}

fn value_type_debug_exec(t: ValueType) -> (r: &'static str)
    ensures
        r@ == value_type_debug(t),
{
    match t {
        ValueType::String => "String",
        ValueType::Integer => "Integer",
        ValueType::Float => "Float",
        ValueType::Boolean => "Boolean",
        ValueType::OffsetDateTime => "OffsetDateTime",
        ValueType::LocalDateTime => "LocalDateTime",
        ValueType::LocalDate => "LocalDate",
        ValueType::LocalTime => "LocalTime",
        ValueType::Array => "Array",
        ValueType::Table => "Table",
        ValueType::Quantity => "Quantity",
        ValueType::EnumReference => "EnumReference",
        ValueType::EnumDefinition => "EnumDefinition",
        ValueType::Unknown => "Unknown",
    }
}

/// Sort text for a candidate: its group, then `0` inside the current table
/// and `1` elsewhere.
pub open spec fn locality(path: Seq<String>, current: Seq<String>, group: Seq<char>) -> Seq<char> {
    group + if current.len() > 0 && pv(current).is_prefix_of(pv(path)) {
        "0"@
    } else {
        "1"@
    }
}

pub fn locality_sort(path: &[String], current_table: &[String], group: &str) -> (r: String)
    ensures
        r@ == locality(path@, current_table@, group@),
{
    let local = current_table.len() > 0 && path_starts_with(path, current_table);
    let mut r = String::from_str(group);
    if local {
        r.append("0");
    } else {
        r.append("1");
    }
    r
}

/// The position of the last standard table among the first `n` definitions.
pub open spec fn last_table(defs: Seq<Definition>, n: int) -> Option<int>
    decreases n,
{
    if n <= 0 {
        None
    } else if defs[n - 1].kind == DefinitionKind::Table {
        Some(n - 1)
    } else {
        last_table(defs, n - 1)
    }
}

/// The path of the last standard table, or the empty path.
pub open spec fn current_table(defs: Seq<Definition>) -> Seq<String> {
    match last_table(defs, defs.len() as int) {
        Some(k) => defs[k].path@,
        None => Seq::empty(),
    }
}

/// Some item among `items` has this kind and label.
pub open spec fn has_kind_label(items: Seq<ItemView>, kind: CompletionKind, label: Seq<char>) -> bool {
    exists|j: int| 0 <= j < items.len() && (#[trigger] items[j]).1 == kind && items[j].0 == label
}

pub open spec fn enum_item(d: Definition, current: Seq<String>, replace: ByteRange) -> ItemView {
    (dotted(d.path@), CompletionKind::Enum, "ATML enum"@, dotted(d.path@) + "::"@, replace, locality(d.path@, current, "0"@))
}

pub open spec fn key_item(d: Definition, current: Seq<String>, replace: ByteRange) -> ItemView {
    (
        dotted(d.path@),
        CompletionKind::Key,
        "ATML reference ("@ + value_type_debug(d.value_type) + ")"@,
        dotted(d.path@),
        replace,
        locality(d.path@, current, "1"@),
    )
}

/// Enum items for enum definitions and reference items for keys and tables
/// two or more segments deep, whose label starts with `typed`, from the first
/// `n` definitions, the first of each kind and label.
pub open spec fn value_candidates(defs: Seq<Definition>, typed: Seq<u8>, current: Seq<String>, replace: ByteRange, n: int) -> Seq<ItemView>
    decreases n,
{
    if n <= 0 {
        Seq::empty()
    } else {
        let rest = value_candidates(defs, typed, current, replace, n - 1);
        let d = defs[n - 1];
        let label = dotted(d.path@);
        if d.kind == DefinitionKind::Enum && typed.is_prefix_of(encode_utf8(label)) && !has_kind_label(rest, CompletionKind::Enum, label) {
            rest.push(enum_item(d, current, replace))
        } else if (d.kind == DefinitionKind::Key || d.kind == DefinitionKind::Table) && d.path@.len() >= 2
            && typed.is_prefix_of(encode_utf8(label)) && !has_kind_label(rest, CompletionKind::Key, label) {
            rest.push(key_item(d, current, replace))
        } else {
            rest
        }
    }
}

pub open spec fn shape(label: Seq<char>, detail: Seq<char>, sort: Seq<char>, replace: ByteRange) -> ItemView {
    (label, CompletionKind::Value, detail, label, replace, sort)
}

/// The value shapes offered at an empty value.
pub open spec fn value_shapes(replace: ByteRange) -> Seq<ItemView> {
    seq![
        shape("\"\""@, "string"@, "200"@, replace),
        shape("0"@, "integer"@, "201"@, replace),
        shape("0.0"@, "float"@, "202"@, replace),
        shape("true"@, "boolean"@, "203"@, replace),
        shape("false"@, "boolean"@, "204"@, replace),
        shape("[]"@, "array"@, "205"@, replace),
        shape("{}"@, "inline table"@, "206"@, replace),
        shape("0unit"@, "ATML quantity"@, "207"@, replace),
    ]
}

/// The value and reference completions of a line, unsorted: nothing without
/// a `=`, or when the text after it is neither empty nor a path prefix.
pub open spec fn value_completion(l: Seq<u8>, line_start: int, offset: int, defs: Seq<Definition>) -> Seq<ItemView> {
    match last_byte_before(l, l.len() as int, 61) {
        None => Seq::empty(),
        Some(equals) => {
            let value_start = trim_start_pos(l, equals + 1, l.len() as int);
            let typed = l.subrange(value_start, l.len() as int);
            if typed.len() > 0 && !spec_is_path_prefix(typed) {
                Seq::empty()
            } else {
                let replace = ByteRange { start: (line_start + value_start) as usize, end: offset as usize };
                value_candidates(defs, typed, current_table(defs), replace, defs.len() as int) + if typed.len() == 0 {
                    value_shapes(replace)
                } else {
                    Seq::empty()
                }
            }
        },
    }
}

fn has_kind_label_exec(items: &Vec<CompletionItem>, kind: CompletionKind, label: &String) -> (r: bool)
    ensures
        r == has_kind_label(item_views(items@), kind, label@),
{
    let mut j: usize = 0;
    while j < items.len()
        invariant
            j <= items@.len(),
            forall|k: int| 0 <= k < j ==> !(items@[k].kind == kind && items@[k].label@ == label@),
        decreases items@.len() - j,
    {
        if items[j].kind == kind && items[j].label == *label {
            assert(item_views(items@)[j as int].0 == label@);
            return true;
        }
        j = j + 1;
    }
    proof {
        assert forall|k: int| 0 <= k < item_views(items@).len() implies !((#[trigger] item_views(items@)[k]).1 == kind
            && item_views(items@)[k].0 == label@) by {
            assert(item_views(items@)[k].0 == items@[k].label@);
        }
    }
    false
}

fn current_table_exec(defs: &Vec<Definition>) -> (r: Vec<String>)
    ensures
        r@ == current_table(defs@),
{
    let mut n = defs.len();
    while n > 0
        invariant
            n <= defs@.len(),
            last_table(defs@, defs@.len() as int) == last_table(defs@, n as int),
        decreases n,
    {
        if defs[n - 1].kind == DefinitionKind::Table {
            return crate::paths::clone_path(defs[n - 1].path.as_slice());
        }
        n = n - 1;
    }
    Vec::new()
}

fn push_shape(items: &mut Vec<CompletionItem>, label: &str, detail: &str, sort: &str, replace: ByteRange)
    ensures
        item_views(final(items)@) == item_views(old(items)@).push(shape(label@, detail@, sort@, replace)),
{
    let ghost before = items@;
    items.push(CompletionItem {
        label: String::from_str(label),
        kind: CompletionKind::Value,
        detail: String::from_str(detail),
        insert_text: String::from_str(label),
        replace,
        sort_text: String::from_str(sort),
    });
    assert(item_views(items@) =~= item_views(before).push(shape(label@, detail@, sort@, replace)));
}

fn complete_values_and_paths(line: &str, line_start: usize, offset: usize, index: &SemanticIndex) -> (r: Vec<CompletionItem>)
    requires
        line_start + line.spec_bytes().len() <= usize::MAX,
    ensures
        sorted_items_of(item_views(r@), value_completion(line.spec_bytes(), line_start as int, offset as int, index.definitions@)),
{
    let l = line.as_bytes();
    let ghost ls = l@;
    let len = l.len();
    proof {
        lemma_last_byte_before(ls, len as int, 61);
        assert(item_views(Seq::<CompletionItem>::empty()) =~= Seq::<ItemView>::empty());
    }
    let equals = match rfind_byte(l, 0, len, 61) {
        Some(e) => e,
        None => return Vec::new(),
    };
    proof {
        assert(last_byte_before(ls, len as int, 61) == Some(equals as int));
    }
    let value_start = trim_start_from(l, equals + 1, len);
    let typed_empty = value_start == len;
    if !typed_empty && !is_path_prefix_range(l, value_start, len) {
        return Vec::new();
    }
    let replace = ByteRange { start: line_start + value_start, end: offset };
    let ghost typed = ls.subrange(value_start as int, len as int);
    let current = current_table_exec(&index.definitions);
    let ghost defs = index.definitions@;
    let mut items: Vec<CompletionItem> = Vec::new();
    let mut i: usize = 0;
    while i < index.definitions.len()
        invariant
            defs == index.definitions@,
            ls == l@,
            value_start <= len == ls.len(),
            typed == ls.subrange(value_start as int, len as int),
            current@ == current_table(defs),
            i <= defs.len(),
            item_views(items@) == value_candidates(defs, typed, current_table(defs), replace, i as int),
        decreases defs.len() - i,
    {
        let d = &index.definitions[i];
        let ghost before = items@;
        if d.kind == DefinitionKind::Enum {
            let label = join(d.path.as_slice(), ".");
            if bytes_prefix(l, value_start, len, label.as_str()) && !has_kind_label_exec(&items, CompletionKind::Enum, &label) {
                let mut insert_text = label.clone();
                insert_text.append("::");
                items.push(CompletionItem {
                    label,
                    kind: CompletionKind::Enum,
                    detail: String::from_str("ATML enum"),
                    insert_text,
                    replace,
                    sort_text: locality_sort(d.path.as_slice(), current.as_slice(), "0"),
                });
                proof {
                    assert(item_views(items@) =~= item_views(before).push(enum_item(defs[i as int], current_table(defs), replace)));
                }
            }
        } else if (d.kind == DefinitionKind::Key || d.kind == DefinitionKind::Table) && d.path.len() >= 2 {
            let label = join(d.path.as_slice(), ".");
            if bytes_prefix(l, value_start, len, label.as_str()) && !has_kind_label_exec(&items, CompletionKind::Key, &label) {
                let mut detail = String::from_str("ATML reference (");
                detail.append(value_type_debug_exec(d.value_type));
                detail.append(")");
                items.push(CompletionItem {
                    label: label.clone(),
                    kind: CompletionKind::Key,
                    detail,
                    insert_text: label,
                    replace,
                    sort_text: locality_sort(d.path.as_slice(), current.as_slice(), "1"),
                });
                proof {
                    assert(item_views(items@) =~= item_views(before).push(key_item(defs[i as int], current_table(defs), replace)));
                }
            }
        }
        i = i + 1;
    }
    let ghost candidates = item_views(items@);
    if typed_empty {
        push_shape(&mut items, "\"\"", "string", "200", replace);
        push_shape(&mut items, "0", "integer", "201", replace);
        push_shape(&mut items, "0.0", "float", "202", replace);
        push_shape(&mut items, "true", "boolean", "203", replace);
        push_shape(&mut items, "false", "boolean", "204", replace);
        push_shape(&mut items, "[]", "array", "205", replace);
        push_shape(&mut items, "{}", "inline table", "206", replace);
        push_shape(&mut items, "0unit", "ATML quantity", "207", replace);
        proof {
            assert(item_views(items@) =~= candidates + value_shapes(replace));
        }
    } else {
        proof {
            assert(item_views(items@) =~= candidates + Seq::<ItemView>::empty());
        }
    }
    sort_items(items)
}

// ---------------------------------------------------------------------------
// Completion at an offset
// ---------------------------------------------------------------------------
/// `r` holds the completions of line `l` with `index`: enum members after
/// `::`, else parent tables in an open table header, else units after a
/// number, else values and reference paths after `=`.
pub open spec fn line_completions(l: Seq<u8>, line_start: int, offset: int, index: SemanticIndex, r: Seq<ItemView>) -> bool {
    match enum_member_completion(l, line_start, offset, index.definitions@) {
        Some(c) => sorted_items_of(r, c),
        None => match parent_table_completion(l, line_start, offset, index.definitions@) {
            Some(c) => sorted_items_of(r, c),
            None => match unit_completion(l, line_start, offset, index.quantities@) {
                Some(c) => sorted_items_of(r, c),
                None => sorted_items_of(r, value_completion(l, line_start, offset, index.definitions@)),
            },
        },
    }
}

fn complete_line(line: &str, line_start: usize, offset: usize, index: &SemanticIndex) -> (r: Vec<CompletionItem>)
    requires
        !enum_name_splits_char(line.spec_bytes()),
        line_start + line.spec_bytes().len() <= usize::MAX,
    ensures
        line_completions(line.spec_bytes(), line_start as int, offset as int, *index, item_views(r@)),
{
    if let Some(items) = complete_enum_members(line, line_start, offset, index) {
        return items;
    }
    if let Some(items) = complete_parent_tables(line, line_start, offset, index) {
        return items;
    }
    if let Some(items) = complete_units(line, line_start, offset, index) {
        return items;
    }
    complete_values_and_paths(line, line_start, offset, index)
}

/// The offset completion works at: clamped to the text and moved back to a
/// character boundary.
pub open spec fn completion_offset(b: Seq<u8>, offset: int) -> int {
    floor_boundary(b, if offset < b.len() { offset } else { b.len() as int })
}

/// The start of the line that completion works on.
pub open spec fn completion_line_start(b: Seq<u8>, offset: int) -> int {
    line_start_before(b, completion_offset(b, offset))
}

/// The text of the line up to the completion offset.
pub open spec fn completion_line(b: Seq<u8>, offset: int) -> Seq<u8> {
    b.subrange(completion_line_start(b, offset), completion_offset(b, offset))
}

/// Completion can slice the line: the enum name before a `::` does not start
/// inside a multi-byte White_Space character.
pub open spec fn completion_slices(b: Seq<u8>, offset: int) -> bool {
    !spec_in_comment_or_string(completion_line(b, offset)) ==> !enum_name_splits_char(completion_line(b, offset))
}

/// Whether `complete` can slice the line at `offset` (see `completion_slices`).
pub fn completion_slices_exec(source: &str, offset: usize) -> (r: bool)
    ensures
        r == completion_slices(source.spec_bytes(), offset as int),
{
    let (line_start, off) = completion_position(source, offset);
    let line = substr(source, line_start, off);
    in_comment_or_string(line.as_bytes()) || !enum_name_splits_char_exec(line.as_bytes())
}

fn enum_name_splits_char_exec(l: &[u8]) -> (r: bool)
    ensures
        r == enum_name_splits_char(l@),
{
    match last_double_colon_exec(l) {
        Some(separator) => match last_enum_stop_exec(l, separator) {
            Some(p) => ws_len_at_exec(l, p) >= 2,
            None => false,
        },
        None => false,
    }
}

fn completion_position(source: &str, offset: usize) -> (r: (usize, usize))
    ensures
        r.0 == completion_line_start(source.spec_bytes(), offset as int),
        r.1 == completion_offset(source.spec_bytes(), offset as int),
        r.0 <= r.1 <= source.spec_bytes().len(),
        is_char_boundary(source.spec_bytes(), r.0 as int),
        is_char_boundary(source.spec_bytes(), r.1 as int),
{
    let b = source.as_bytes();
    proof {
        lemma_view_from_bytes(source);
    }
    let clamped = if offset < b.len() { offset } else { b.len() };
    let off = floor_char_boundary(source, clamped);
    let line_start = match rfind_byte(b, 0, off, 10) {
        Some(i) => i + 1,
        None => 0,
    };
    proof {
        lemma_last_byte_before(b@, off as int, 10);
        if let Some(i) = last_byte_before(b@, off as int, 10) {
            lemma_ascii_boundaries(b@, i);
        } else {
            is_char_boundary_start_end_of_seq(b@);
        }
    }
    (line_start, off)
}

/// `r` completes the line at `offset` with the index of `a`, the analysis of
/// the lines before it.
pub open spec fn completed_with(b: Seq<u8>, offset: int, a: Analysis, r: Seq<ItemView>) -> bool {
    &&& analysis_of(decode_utf8(b.subrange(0, completion_line_start(b, offset))), a)
    &&& a.semantic matches Some(index) && line_completions(
        completion_line(b, offset),
        completion_line_start(b, offset),
        completion_offset(b, offset),
        index,
        r,
    )
}

proof fn lemma_last_byte_in_prefix(b: Seq<u8>, o: int, x: int, c: u8)
    requires
        0 <= x <= o <= b.len(),
    ensures
        last_byte_before(b.subrange(0, o), x, c) == last_byte_before(b, x, c),
    decreases x,
{
    if x > 0 {
        lemma_last_byte_in_prefix(b, o, x - 1, c);
    }
}

/// Completion does not look past the cursor: the text up to the completion
/// offset `o`, asked at `o`, has the same line, the same line start and the
/// same completions as the whole text asked at `offset`.
pub proof fn lemma_completion_ignores_later_text(b: Seq<u8>, offset: int)
    requires
        valid_utf8(b),
        0 <= offset,
    ensures
        ({
            let o = completion_offset(b, offset);
            let p = b.subrange(0, o);
            &&& 0 <= o <= b.len()
            &&& completion_offset(p, o) == o
            &&& completion_line_start(p, o) == completion_line_start(b, offset)
            &&& completion_line(p, o) == completion_line(b, offset)
            &&& forall|a: Analysis, r: Seq<ItemView>| #[trigger] completed_with(b, offset, a, r) <==> completed_with(p, o, a, r)
        }),
{
    let c = if offset < b.len() { offset } else { b.len() as int };
    is_char_boundary_start_end_of_seq(b);
    crate::positions::lemma_floor_boundary(b, 0, c);
    let o = completion_offset(b, offset);
    let p = b.subrange(0, o);
    valid_utf8_split(b, o);
    is_char_boundary_start_end_of_seq(p);
    assert(completion_offset(p, o) == o);
    lemma_last_byte_in_prefix(b, o, o, 10);
    lemma_last_byte_before(b, o, 10);
    let ls = completion_line_start(b, offset);
    assert(completion_line_start(p, o) == ls);
    assert(0 <= ls <= o);
    assert(p.subrange(ls, o) =~= b.subrange(ls, o));
    assert(p.subrange(0, ls) =~= b.subrange(0, ls));
}

/// Every item replaces `replace` and its label starts with `typed`.
pub open spec fn items_fit(items: Seq<ItemView>, typed: Seq<u8>, replace: ByteRange) -> bool {
    forall|k: int| 0 <= k < items.len() ==> (#[trigger] items[k]).4 == replace && typed.is_prefix_of(encode_utf8(items[k].0))
}

proof fn lemma_fit_push(items: Seq<ItemView>, x: ItemView, typed: Seq<u8>, replace: ByteRange)
    requires
        items_fit(items, typed, replace),
        x.4 == replace,
        typed.is_prefix_of(encode_utf8(x.0)),
    ensures
        items_fit(items.push(x), typed, replace),
{
    assert forall|k: int| 0 <= k < items.push(x).len() implies (#[trigger] items.push(x)[k]).4 == replace
        && typed.is_prefix_of(encode_utf8(items.push(x)[k].0)) by {
        if k < items.len() {
            assert(items.push(x)[k] == items[k]);
        }
    }
}

proof fn lemma_member_candidates_fit(
    defs: Seq<Definition>,
    enum_path: Seq<Seq<u8>>,
    typed: Seq<u8>,
    detail: Seq<char>,
    replace: ByteRange,
    n: int,
)
    ensures
        items_fit(member_candidates(defs, enum_path, typed, detail, replace, n), typed, replace),
    decreases n,
{
    if n > 0 {
        lemma_member_candidates_fit(defs, enum_path, typed, detail, replace, n - 1);
        let rest = member_candidates(defs, enum_path, typed, detail, replace, n - 1);
        if member_matches(defs[n - 1], enum_path, typed) {
            lemma_fit_push(rest, member_item(defs[n - 1], detail, replace), typed, replace);
        }
    }
}

proof fn lemma_table_candidates_fit(defs: Seq<Definition>, typed: Seq<u8>, replace: ByteRange, n: int)
    ensures
        items_fit(table_candidates(defs, typed, replace, n), typed, replace),
    decreases n,
{
    if n > 0 {
        lemma_table_candidates_fit(defs, typed, replace, n - 1);
        let rest = table_candidates(defs, typed, replace, n - 1);
        let label = dotted(defs[n - 1].path@);
        if defs[n - 1].kind == DefinitionKind::Table && typed.is_prefix_of(encode_utf8(label)) && !has_label(rest, label) {
            lemma_fit_push(rest, table_item(label, replace), typed, replace);
        }
    }
}

proof fn lemma_with_unit_fit(items: Seq<ItemView>, unit: Seq<char>, typed: Seq<u8>, replace: ByteRange)
    requires
        items_fit(items, typed, replace),
    ensures
        items_fit(with_unit(items, unit, typed, replace), typed, replace),
{
    if typed.is_prefix_of(encode_utf8(unit)) && !has_label(items, unit) {
        lemma_fit_push(items, unit_item(unit, replace), typed, replace);
    }
}

proof fn lemma_unit_candidates_fit(qs: Seq<QuantityOccurrence>, typed: Seq<u8>, replace: ByteRange, n: int)
    ensures
        items_fit(unit_candidates(qs, typed, replace, n), typed, replace),
    decreases n,
{
    if n > 0 {
        lemma_unit_candidates_fit(qs, typed, replace, n - 1);
        let q = qs[n - 1];
        lemma_with_unit_fit(unit_candidates(qs, typed, replace, n - 1), q.unit@, typed, replace);
        if let Some(u) = q.super_unit {
            lemma_with_unit_fit(with_unit(unit_candidates(qs, typed, replace, n - 1), q.unit@, typed, replace), u@, typed, replace);
        }
    }
}

proof fn lemma_value_candidates_fit(defs: Seq<Definition>, typed: Seq<u8>, current: Seq<String>, replace: ByteRange, n: int)
    ensures
        items_fit(value_candidates(defs, typed, current, replace, n), typed, replace),
    decreases n,
{
    if n > 0 {
        lemma_value_candidates_fit(defs, typed, current, replace, n - 1);
        let rest = value_candidates(defs, typed, current, replace, n - 1);
        let d = defs[n - 1];
        let label = dotted(d.path@);
        if d.kind == DefinitionKind::Enum && typed.is_prefix_of(encode_utf8(label)) && !has_kind_label(rest, CompletionKind::Enum, label) {
            lemma_fit_push(rest, enum_item(d, current, replace), typed, replace);
        } else if (d.kind == DefinitionKind::Key || d.kind == DefinitionKind::Table) && d.path@.len() >= 2
            && typed.is_prefix_of(encode_utf8(label)) && !has_kind_label(rest, CompletionKind::Key, label) {
            lemma_fit_push(rest, key_item(d, current, replace), typed, replace);
        }
    }
}

proof fn lemma_fit_concat(a: Seq<ItemView>, b: Seq<ItemView>, typed: Seq<u8>, replace: ByteRange)
    requires
        items_fit(a, typed, replace),
        items_fit(b, typed, replace),
    ensures
        items_fit(a + b, typed, replace),
{
    assert forall|k: int| 0 <= k < (a + b).len() implies (#[trigger] (a + b)[k]).4 == replace && typed.is_prefix_of(
        encode_utf8((a + b)[k].0),
    ) by {
        if k < a.len() {
            assert((a + b)[k] == a[k]);
        } else {
            assert((a + b)[k] == b[k - a.len()]);
        }
    }
}

/// A typed text that ends in an ASCII byte other than White_Space has no
/// trailing White_Space to trim.
proof fn lemma_no_trailing_ws(l: Seq<u8>, s: int)
    requires
        0 <= s <= l.len(),
        s < l.len() ==> l[l.len() - 1] < 128 && !((9 <= l[l.len() - 1] <= 13) || l[l.len() - 1] == 32),
    ensures
        trim_end_pos(l, s, l.len() as int) == l.len(),
{
}

proof fn lemma_numeric_prefix_bound(b: Seq<u8>)
    ensures
        spec_numeric_prefix_len(b) matches Some(n) ==> 0 <= n <= b.len(),
{
    let sign = if b.len() > 0 && (b[0] == 43 || b[0] == 45) { 1int } else { 0int };
    lemma_digits_end(b, sign);
    let integer_end = digits_end(b, sign);
    if integer_end < b.len() {
        lemma_digits_end(b, integer_end + 1);
    }
    let fraction_end = if integer_end < b.len() && b[integer_end] == 46 {
        digits_end(b, integer_end + 1)
    } else {
        integer_end
    };
    if fraction_end < b.len() {
        let digit_start = if fraction_end + 1 < b.len() && (b[fraction_end + 1] == 43 || b[fraction_end + 1] == 45) {
            fraction_end + 2
        } else {
            fraction_end + 1
        };
        lemma_digits_end(b, digit_start);
    }
}

proof fn lemma_double_colon_bound(l: Seq<u8>, x: int)
    ensures
        last_double_colon(l, x) matches Some(i) ==> 0 <= i && i + 2 <= l.len() && l[i] == 58 && l[i + 1] == 58,
    decreases x + 1,
{
    if x >= 0 && !(x + 1 < l.len() && l[x] == 58 && l[x + 1] == 58) {
        lemma_double_colon_bound(l, x - 1);
    }
}

proof fn lemma_unit_separator_bound(b: Seq<u8>, from: int, x: int)
    ensures
        last_unit_separator(b, from, x) matches Some(p) ==> from <= p < x && (b[p] == 47 || b[p] == 42),
    decreases x - from,
{
    if x > from && !(b[x - 1] == 47 || b[x - 1] == 42) {
        lemma_unit_separator_bound(b, from, x - 1);
    }
}

/// What holds of each item of a line's completions.
pub open spec fn completion_item_fits(l: Seq<u8>, line_start: int, offset: int, item: ItemView) -> bool {
    exists|s: int|
        0 <= s <= l.len() && is_char_boundary(l, s) && item.4 == ByteRange {
            start: (line_start + s) as usize,
            end: offset as usize,
        } && l.subrange(s, trim_end_pos(l, s, l.len() as int)).is_prefix_of(encode_utf8(item.0))
}

proof fn lemma_sorted_fit(
    l: Seq<u8>,
    line_start: int,
    offset: int,
    r: Seq<ItemView>,
    c: Seq<ItemView>,
    s: int,
    typed: Seq<u8>,
    replace: ByteRange,
)
    requires
        sorted_items_of(r, c),
        items_fit(c, typed, replace),
        0 <= s <= l.len(),
        is_char_boundary(l, s),
        replace == (ByteRange { start: (line_start + s) as usize, end: offset as usize }),
        typed == l.subrange(s, trim_end_pos(l, s, l.len() as int)),
    ensures
        forall|k: int| 0 <= k < r.len() ==> completion_item_fits(l, line_start, offset, #[trigger] r[k]),
{
    assert forall|k: int| 0 <= k < r.len() implies completion_item_fits(l, line_start, offset, #[trigger] r[k]) by {
        assert(r.to_multiset().count(r[k]) > 0) by {
            r.to_multiset_ensures();
            assert(r.contains(r[k]));
        }
        c.to_multiset_ensures();
        assert(c.contains(r[k]));
        let j = choose|j: int| 0 <= j < c.len() && c[j] == r[k];
        assert(c[j].4 == replace);
    }
}

/// Each item of a line's completions replaces the text from some point of the
/// line to the cursor, and its label starts with that text without trailing
/// White_Space.
pub proof fn lemma_line_completion_items(l: Seq<u8>, line_start: int, offset: int, index: SemanticIndex, r: Seq<ItemView>)
    requires
        valid_utf8(l),
        line_completions(l, line_start, offset, index, r),
    ensures
        forall|k: int| 0 <= k < r.len() ==> completion_item_fits(l, line_start, offset, #[trigger] r[k]),
{
    let defs = index.definitions@;
    let len = l.len() as int;
    crate::text::lemma_trim_end_bounds(l, 0, len);
    let none_typed = l.subrange(0, trim_end_pos(l, 0, len));
    let none_replace = ByteRange { start: line_start as usize, end: offset as usize };
    is_char_boundary_start_end_of_seq(l);
    match enum_member_completion(l, line_start, offset, defs) {
        Some(c) => {
            let sep = last_double_colon(l, l.len() - 2)->0;
            lemma_double_colon_bound(l, l.len() - 2);
            let name = trimmed(l.subrange(enum_name_start(l, sep), sep));
            let typed = l.subrange(sep + 2, len);
            if name.len() == 0 || !(forall|i: int| 0 <= i < typed.len() ==> is_ascii_alnum(#[trigger] typed[i]) || typed[i] == 95) {
                lemma_sorted_fit(l, line_start, offset, r, c, 0, none_typed, none_replace);
            } else {
                let enum_path = split_from(name, 0, 46).map_values(|segment: Seq<u8>| quote_trimmed(segment));
                let replace = ByteRange { start: (line_start + sep + 2) as usize, end: offset as usize };
                lemma_ascii_boundaries(l, sep + 1);
                lemma_member_candidates_fit(defs, enum_path, typed, "member of enum "@ + decode_utf8(name), replace, defs.len() as int);
                if typed.len() > 0 {
                    assert(is_ascii_alnum(typed[typed.len() - 1]) || typed[typed.len() - 1] == 95);
                }
                lemma_no_trailing_ws(l, sep + 2);
                assert(l.subrange(sep + 2, trim_end_pos(l, sep + 2, len)) =~= typed);
                lemma_sorted_fit(l, line_start, offset, r, c, sep + 2, typed, replace);
            }
        },
        None => match parent_table_completion(l, line_start, offset, defs) {
            Some(c) => {
                let colon = first_byte_from(l, 0, 58)->0;
                lemma_first_byte_from(l, 0, 58);
                lemma_last_byte_before(l, len, 44);
                let segment_start = match last_byte_before(l, len, 44) {
                    Some(q) => if q > colon { q + 1 } else { colon + 1 },
                    None => colon + 1,
                };
                crate::text::lemma_trim_start_bounds(l, segment_start, len);
                if let Some(q) = last_byte_before(l, len, 44) {
                    lemma_ascii_boundaries(l, q);
                }
                lemma_ascii_boundaries(l, colon);
                lemma_trim_start_boundary(l, segment_start, len);
                let typed_start = trim_start_pos(l, segment_start, len);
                crate::text::lemma_trim_end_bounds(l, typed_start, len);
                let typed = l.subrange(typed_start, trim_end_pos(l, typed_start, len));
                if spec_is_path_prefix(typed) {
                    let replace = ByteRange { start: (line_start + typed_start) as usize, end: offset as usize };
                    lemma_table_candidates_fit(defs, typed, replace, defs.len() as int);
                    lemma_sorted_fit(l, line_start, offset, r, c, typed_start, typed, replace);
                } else {
                    lemma_sorted_fit(l, line_start, offset, r, c, 0, none_typed, none_replace);
                }
            },
            None => match unit_completion(l, line_start, offset, index.quantities@) {
                Some(c) => {
                    let equals = last_byte_before(l, len, 61)->0;
                    lemma_last_byte_before(l, len, 61);
                    crate::text::lemma_trim_start_bounds(l, equals + 1, len);
                    let token_start = trim_start_pos(l, equals + 1, len);
                    lemma_numeric_prefix_bound(l.subrange(token_start, len));
                    let number_end = token_start + spec_numeric_prefix_len(l.subrange(token_start, len))->0;
                    lemma_unit_separator_bound(l, number_end, len);
                    let unit_start = match last_unit_separator(l, number_end, len) {
                        Some(p) => p + 1,
                        None => number_end,
                    };
                    let typed = l.subrange(unit_start, len);
                    let replace = ByteRange { start: (line_start + unit_start) as usize, end: offset as usize };
                    if let Some(p) = last_unit_separator(l, number_end, len) {
                        lemma_ascii_boundaries(l, p);
                    } else if unit_start < len {
                        assert(is_ascii_alpha(typed[0]));
                        lemma_ascii_boundaries(l, unit_start);
                    }
                    lemma_unit_candidates_fit(index.quantities@, typed, replace, index.quantities@.len() as int);
                    if typed.len() > 0 {
                        assert(is_ascii_alpha(typed[typed.len() - 1]));
                    }
                    lemma_no_trailing_ws(l, unit_start);
                    assert(l.subrange(unit_start, trim_end_pos(l, unit_start, len)) =~= typed);
                    lemma_sorted_fit(l, line_start, offset, r, c, unit_start, typed, replace);
                },
                None => {
                    let c = value_completion(l, line_start, offset, defs);
                    match last_byte_before(l, len, 61) {
                        None => {
                            lemma_sorted_fit(l, line_start, offset, r, c, 0, none_typed, none_replace);
                        },
                        Some(equals) => {
                            lemma_last_byte_before(l, len, 61);
                            crate::text::lemma_trim_start_bounds(l, equals + 1, len);
                            let value_start = trim_start_pos(l, equals + 1, len);
                            lemma_ascii_boundaries(l, equals);
                            lemma_trim_start_boundary(l, equals + 1, len);
                            let typed = l.subrange(value_start, len);
                            if typed.len() > 0 && !spec_is_path_prefix(typed) {
                                lemma_sorted_fit(l, line_start, offset, r, c, 0, none_typed, none_replace);
                            } else {
                                let replace = ByteRange { start: (line_start + value_start) as usize, end: offset as usize };
                                lemma_value_candidates_fit(defs, typed, current_table(defs), replace, defs.len() as int);
                                let shapes = if typed.len() == 0 {
                                    value_shapes(replace)
                                } else {
                                    Seq::empty()
                                };
                                assert(items_fit(shapes, typed, replace)) by {
                                    if typed.len() == 0 {
                                        assert forall|k: int| 0 <= k < shapes.len() implies (#[trigger] shapes[k]).4 == replace
                                            && typed.is_prefix_of(encode_utf8(shapes[k].0)) by {
                                            assert(typed =~= Seq::<u8>::empty());
                                        }
                                    }
                                }
                                lemma_fit_concat(
                                    value_candidates(defs, typed, current_table(defs), replace, defs.len() as int),
                                    shapes,
                                    typed,
                                    replace,
                                );
                                if typed.len() > 0 {
                                    assert(crate::text::is_path_prefix_byte(typed[typed.len() - 1]));
                                }
                                lemma_no_trailing_ws(l, value_start);
                                assert(l.subrange(value_start, trim_end_pos(l, value_start, len)) =~= typed);
                                lemma_sorted_fit(l, line_start, offset, r, c, value_start, typed, replace);
                            }
                        },
                    }
                },
            },
        },
    }
}

proof fn lemma_completion_line_valid(b: Seq<u8>, offset: int)
    requires
        valid_utf8(b),
        0 <= offset,
    ensures
        ({
            let o = completion_offset(b, offset);
            let ls = completion_line_start(b, offset);
            &&& 0 <= ls <= o <= b.len()
            &&& is_char_boundary(b, o)
            &&& valid_utf8(completion_line(b, offset))
            &&& forall|s: int| 0 <= s <= o - ls && #[trigger] is_char_boundary(completion_line(b, offset), s)
                ==> is_char_boundary(b, ls + s)
        }),
{
    let c = if offset < b.len() { offset } else { b.len() as int };
    is_char_boundary_start_end_of_seq(b);
    crate::positions::lemma_floor_boundary(b, 0, c);
    let o = completion_offset(b, offset);
    lemma_last_byte_before(b, o, 10);
    let ls = completion_line_start(b, offset);
    if let Some(i) = last_byte_before(b, o, 10) {
        crate::text::lemma_ascii_boundaries(b, i);
    }
    crate::positions::lemma_decode_parts(b, ls, o, o);
    let l = completion_line(b, offset);
    assert forall|s: int| 0 <= s <= o - ls && #[trigger] is_char_boundary(l, s) implies is_char_boundary(b, ls + s) by {
        if s < o - ls {
            is_char_boundary_iff_not_is_continuation_byte(l, s);
            is_char_boundary_iff_not_is_continuation_byte(b, ls + s);
            assert(l[s] == b[ls + s]);
        }
    }
}

/// Every completion at `offset` replaces a stretch of the cursor's line that
/// starts at a character boundary and ends at the cursor (the offset clamped
/// and moved back to a character boundary), and its label starts with the text typed there, without
/// trailing White_Space.
pub proof fn lemma_completion_replaces_typed_text(b: Seq<u8>, offset: int, a: Analysis, r: Seq<ItemView>)
    requires
        valid_utf8(b),
        0 <= offset,
        b.len() <= usize::MAX,
        completed_with(b, offset, a, r),
    ensures
        forall|k: int|
            0 <= k < r.len() ==> completion_line_start(b, offset) <= (#[trigger] r[k]).4.start <= r[k].4.end
                == completion_offset(b, offset) && is_char_boundary(b, r[k].4.start as int) && completion_item_fits(
                completion_line(b, offset),
                completion_line_start(b, offset),
                completion_offset(b, offset),
                r[k],
            ),
{
    lemma_completion_ignores_later_text(b, offset);
    lemma_completion_line_valid(b, offset);
    let o = completion_offset(b, offset);
    let ls = completion_line_start(b, offset);
    lemma_last_byte_before(b, o, 10);
    let l = completion_line(b, offset);
    let index = a.semantic->Some_0;
    lemma_line_completion_items(l, ls, o, index, r);
    assert forall|k: int| 0 <= k < r.len() implies ls <= (#[trigger] r[k]).4.start <= r[k].4.end == o
        && is_char_boundary(b, r[k].4.start as int) by {
        assert(completion_item_fits(l, ls, o, r[k]));
        let s = choose|s: int|
            0 <= s <= l.len() && is_char_boundary(l, s) && r[k].4 == ByteRange { start: (ls + s) as usize, end: o as usize } && l.subrange(
                s,
                trim_end_pos(l, s, l.len() as int),
            ).is_prefix_of(encode_utf8(r[k].0));
    }
}

/// Two lists of definitions that completion cannot tell apart: the same key
/// paths, kinds and value types, in the same order.
pub open spec fn same_for_completion(d1: Seq<Definition>, d2: Seq<Definition>) -> bool {
    &&& d1.len() == d2.len()
    &&& forall|i: int|
        0 <= i < d1.len() ==> pv((#[trigger] d1[i]).path@) == pv(d2[i].path@) && d1[i].kind == d2[i].kind
            && d1[i].value_type == d2[i].value_type
}

proof fn lemma_same_path(p1: Seq<String>, p2: Seq<String>)
    requires
        pv(p1) == pv(p2),
    ensures
        p1.len() == p2.len(),
        dotted(p1) == dotted(p2),
        forall|i: int| 0 <= i < p1.len() ==> (#[trigger] p1[i])@ == p2[i]@,
        p1.len() > 0 ==> p1.last()@ == p2.last()@,
{
    assert(pv(p1).len() == p1.len());
    assert(pv(p2).len() == p2.len());
    assert forall|i: int| 0 <= i < p1.len() implies (#[trigger] p1[i])@ == p2[i]@ by {
        assert(pv(p1)[i] == p1[i]@);
        assert(pv(p2)[i] == p2[i]@);
    }
}

proof fn lemma_member_candidates_same(
    d1: Seq<Definition>,
    d2: Seq<Definition>,
    enum_path: Seq<Seq<u8>>,
    typed: Seq<u8>,
    detail: Seq<char>,
    replace: ByteRange,
    n: int,
)
    requires
        same_for_completion(d1, d2),
        n <= d1.len(),
    ensures
        member_candidates(d1, enum_path, typed, detail, replace, n) == member_candidates(d2, enum_path, typed, detail, replace, n),
    decreases n,
{
    if n > 0 {
        lemma_member_candidates_same(d1, d2, enum_path, typed, detail, replace, n - 1);
        let (a, b) = (d1[n - 1], d2[n - 1]);
        lemma_same_path(a.path@, b.path@);
        assert forall|i: int| 0 <= i < a.path@.len() implies bytes_of(#[trigger] a.path@[i]) == bytes_of(b.path@[i]) by {
            assert(a.path@[i]@ == b.path@[i]@);
        }
        if a.path@.len() > 0 {
            assert(bytes_of(a.path@.last()) == bytes_of(b.path@.last()));
        }
        if member_matches(a, enum_path, typed) {
            assert forall|i: int| 0 <= i < enum_path.len() implies bytes_of(#[trigger] b.path@[i]) == enum_path[i] by {
                assert(bytes_of(a.path@[i]) == bytes_of(b.path@[i]));
            }
            assert(member_matches(b, enum_path, typed));
            assert(member_item(a, detail, replace) == member_item(b, detail, replace));
        } else if member_matches(b, enum_path, typed) {
            assert forall|i: int| 0 <= i < enum_path.len() implies bytes_of(#[trigger] a.path@[i]) == enum_path[i] by {
                assert(bytes_of(a.path@[i]) == bytes_of(b.path@[i]));
            }
            assert(member_matches(a, enum_path, typed));
        }
    }
}

proof fn lemma_table_candidates_same(d1: Seq<Definition>, d2: Seq<Definition>, typed: Seq<u8>, replace: ByteRange, n: int)
    requires
        same_for_completion(d1, d2),
        n <= d1.len(),
    ensures
        table_candidates(d1, typed, replace, n) == table_candidates(d2, typed, replace, n),
    decreases n,
{
    if n > 0 {
        lemma_table_candidates_same(d1, d2, typed, replace, n - 1);
        lemma_same_path(d1[n - 1].path@, d2[n - 1].path@);
    }
}

proof fn lemma_value_candidates_same(
    d1: Seq<Definition>,
    d2: Seq<Definition>,
    typed: Seq<u8>,
    c1: Seq<String>,
    c2: Seq<String>,
    replace: ByteRange,
    n: int,
)
    requires
        same_for_completion(d1, d2),
        pv(c1) == pv(c2),
        n <= d1.len(),
    ensures
        value_candidates(d1, typed, c1, replace, n) == value_candidates(d2, typed, c2, replace, n),
    decreases n,
{
    if n > 0 {
        lemma_value_candidates_same(d1, d2, typed, c1, c2, replace, n - 1);
        lemma_same_path(d1[n - 1].path@, d2[n - 1].path@);
        lemma_same_path(c1, c2);
        assert(enum_item(d1[n - 1], c1, replace) == enum_item(d2[n - 1], c2, replace));
        assert(key_item(d1[n - 1], c1, replace) == key_item(d2[n - 1], c2, replace));
    }
}

proof fn lemma_last_table_same(d1: Seq<Definition>, d2: Seq<Definition>, n: int)
    requires
        same_for_completion(d1, d2),
        n <= d1.len(),
    ensures
        last_table(d1, n) == last_table(d2, n),
        last_table(d1, n) matches Some(k) ==> 0 <= k < n,
    decreases n,
{
    if n > 0 {
        lemma_last_table_same(d1, d2, n - 1);
    }
}

proof fn lemma_unit_candidates_same(q1: Seq<QuantityOccurrence>, q2: Seq<QuantityOccurrence>, typed: Seq<u8>, replace: ByteRange, n: int)
    requires
        q1.len() == q2.len(),
        forall|i: int| 0 <= i < q1.len() ==> (#[trigger] q1[i]).unit@ == q2[i].unit@ && match (q1[i].super_unit, q2[i].super_unit) {
            (Some(a), Some(b)) => a@ == b@,
            (None, None) => true,
            _ => false,
        },
        n <= q1.len(),
    ensures
        unit_candidates(q1, typed, replace, n) == unit_candidates(q2, typed, replace, n),
    decreases n,
{
    if n > 0 {
        lemma_unit_candidates_same(q1, q2, typed, replace, n - 1);
        assert(q1[n - 1].unit@ == q2[n - 1].unit@);
    }
}

/// Items with different sort text or label are ordered one way or the other.
proof fn lemma_item_lt_total(a: ItemView, b: ItemView)
    requires
        (a.5, a.0) != (b.5, b.0),
    ensures
        item_lt(a, b) || item_lt(b, a),
{
    lemma_bytes_lt_total(encode_utf8(a.5), encode_utf8(b.5));
    lemma_bytes_lt_total(encode_utf8(a.0), encode_utf8(b.0));
    if encode_utf8(a.5) == encode_utf8(b.5) {
        lemma_encode_injective(a.5, b.5);
    }
    if encode_utf8(a.0) == encode_utf8(b.0) {
        lemma_encode_injective(a.0, b.0);
    }
}

proof fn lemma_filter_push(s: Seq<ItemView>, x: ItemView, p: spec_fn(ItemView) -> bool)
    ensures
        s.push(x).filter(p) == if p(x) {
            s.filter(p).push(x)
        } else {
            s.filter(p)
        },
{
    reveal(Seq::filter);
    assert(s.push(x).drop_last() =~= s);
}

/// The sorted, stably ordered items of a list of candidates are determined
/// by the candidates.
pub proof fn lemma_sorted_items_unique(r1: Seq<ItemView>, r2: Seq<ItemView>, c: Seq<ItemView>)
    requires
        sorted_items_of(r1, c),
        sorted_items_of(r2, c),
    ensures
        r1 == r2,
    decreases r1.len(),
{
    r1.to_multiset_ensures();
    r2.to_multiset_ensures();
    c.to_multiset_ensures();
    if r1.len() == 0 {
        assert(r1 =~= r2);
    } else {
        let x = r1.last();
        let y = r2.last();
        let s1 = r1.drop_last();
        let s2 = r2.drop_last();
        assert(r1 =~= s1.push(x));
        assert(r2 =~= s2.push(y));
        // x and y have the same key
        assert(r1.contains(x));
        assert(r2.to_multiset().count(x) > 0);
        assert(r2.contains(x));
        assert(r1.to_multiset().count(y) > 0) by {
            assert(r2.contains(y));
        }
        assert(r1.contains(y));
        let jx = choose|j: int| 0 <= j < r2.len() && r2[j] == x;
        let jy = choose|j: int| 0 <= j < r1.len() && r1[j] == y;
        if (x.5, x.0) != (y.5, y.0) {
            lemma_item_lt_total(x, y);
            if jx < r2.len() - 1 {
                assert(!item_lt(r2[r2.len() - 1], r2[jx]));
            }
            if jy < r1.len() - 1 {
                assert(!item_lt(r1[r1.len() - 1], r1[jy]));
            }
        }
        let k = (x.5, x.0);
        let pk = item_key_is(k);
        lemma_filter_push(s1, x, pk);
        lemma_filter_push(s2, y, pk);
        assert(r1.filter(pk) == c.filter(pk));
        assert(r2.filter(pk) == c.filter(pk));
        assert(x == r1.filter(pk).last());
        assert(y == r2.filter(pk).last());
        // what remains is again sorted from the same candidates
        assert(s1.to_multiset().insert(x) == s2.to_multiset().insert(x));
        assert(s1.to_multiset() =~= s2.to_multiset()) by {
            assert forall|z: ItemView| s1.to_multiset().count(z) == s2.to_multiset().count(z) by {
                assert(s1.to_multiset().insert(x).count(z) == s2.to_multiset().insert(x).count(z));
            }
        }
        assert forall|kk: (Seq<char>, Seq<char>)| #[trigger] s2.filter(item_key_is(kk)) == s1.filter(item_key_is(kk)) by {
            let q = item_key_is(kk);
            lemma_filter_push(s1, x, q);
            lemma_filter_push(s2, x, q);
            assert(r1.filter(q) == c.filter(q));
            assert(r2.filter(q) == c.filter(q));
            if q(x) {
                assert(s1.filter(q) =~= s1.filter(q).push(x).drop_last());
                assert(s2.filter(q) =~= s2.filter(q).push(x).drop_last());
            }
        }
        assert(items_sorted(s1));
        assert(items_sorted(s2));
        assert(sorted_items_of(s1, s1));
        assert(sorted_items_of(s2, s1));
        lemma_sorted_items_unique(s1, s2, s1);
    }
}

/// Quantities that completion cannot tell apart: the same units, in order.
pub open spec fn same_units(q1: Seq<QuantityOccurrence>, q2: Seq<QuantityOccurrence>) -> bool {
    &&& q1.len() == q2.len()
    &&& forall|i: int| 0 <= i < q1.len() ==> (#[trigger] q1[i]).unit@ == q2[i].unit@ && match (q1[i].super_unit, q2[i].super_unit) {
        (Some(a), Some(b)) => a@ == b@,
        (None, None) => true,
        _ => false,
    }
}

/// A line's completions depend on the index only through the key paths,
/// kinds and value types of its definitions and the units of its quantities.
pub proof fn lemma_line_completions_same(
    l: Seq<u8>,
    line_start: int,
    offset: int,
    i1: SemanticIndex,
    i2: SemanticIndex,
    r1: Seq<ItemView>,
    r2: Seq<ItemView>,
)
    requires
        same_for_completion(i1.definitions@, i2.definitions@),
        same_units(i1.quantities@, i2.quantities@),
        line_completions(l, line_start, offset, i1, r1),
        line_completions(l, line_start, offset, i2, r2),
    ensures
        r1 == r2,
{
    let d1 = i1.definitions@;
    let d2 = i2.definitions@;
    let n = d1.len() as int;
    assert(enum_member_completion(l, line_start, offset, d1) == enum_member_completion(l, line_start, offset, d2)) by {
        if let Some(sep) = last_double_colon(l, l.len() - 2) {
            let name = trimmed(l.subrange(enum_name_start(l, sep), sep));
            let typed = l.subrange(sep + 2, l.len() as int);
            let enum_path = split_from(name, 0, 46).map_values(|segment: Seq<u8>| quote_trimmed(segment));
            let replace = ByteRange { start: (line_start + sep + 2) as usize, end: offset as usize };
            lemma_member_candidates_same(d1, d2, enum_path, typed, "member of enum "@ + decode_utf8(name), replace, n);
        }
    }
    assert(parent_table_completion(l, line_start, offset, d1) == parent_table_completion(l, line_start, offset, d2)) by {
        let t = trim_start_pos(l, 0, l.len() as int);
        if let Some(colon) = first_byte_from(l, 0, 58) {
            let segment_start = match last_byte_before(l, l.len() as int, 44) {
                Some(q) => if q > colon { q + 1 } else { colon + 1 },
                None => colon + 1,
            };
            let typed_start = trim_start_pos(l, segment_start, l.len() as int);
            let typed = l.subrange(typed_start, trim_end_pos(l, typed_start, l.len() as int));
            let replace = ByteRange { start: (line_start + typed_start) as usize, end: offset as usize };
            lemma_table_candidates_same(d1, d2, typed, replace, n);
        }
    }
    assert(unit_completion(l, line_start, offset, i1.quantities@) == unit_completion(l, line_start, offset, i2.quantities@)) by {
        if let Some(equals) = last_byte_before(l, l.len() as int, 61) {
            let token_start = trim_start_pos(l, equals + 1, l.len() as int);
            if let Some(ne) = spec_numeric_prefix_len(l.subrange(token_start, l.len() as int)) {
                let number_end = token_start + ne;
                let unit_start = match last_unit_separator(l, number_end, l.len() as int) {
                    Some(p) => p + 1,
                    None => number_end,
                };
                let typed = l.subrange(unit_start, l.len() as int);
                let replace = ByteRange { start: (line_start + unit_start) as usize, end: offset as usize };
                lemma_unit_candidates_same(i1.quantities@, i2.quantities@, typed, replace, i1.quantities@.len() as int);
            }
        }
    }
    assert(value_completion(l, line_start, offset, d1) == value_completion(l, line_start, offset, d2)) by {
        lemma_last_table_same(d1, d2, n);
        assert(pv(current_table(d1)) == pv(current_table(d2))) by {
            if let Some(k) = last_table(d1, n) {
                assert(pv(d1[k].path@) == pv(d2[k].path@));
            } else {
                assert(pv(Seq::<String>::empty()) =~= pv(Seq::<String>::empty()));
            }
        }
        if let Some(equals) = last_byte_before(l, l.len() as int, 61) {
            let value_start = trim_start_pos(l, equals + 1, l.len() as int);
            let typed = l.subrange(value_start, l.len() as int);
            let replace = ByteRange { start: (line_start + value_start) as usize, end: offset as usize };
            lemma_value_candidates_same(d1, d2, typed, current_table(d1), current_table(d2), replace, n);
        }
    }
    match enum_member_completion(l, line_start, offset, d1) {
        Some(c) => lemma_sorted_items_unique(r1, r2, c),
        None => match parent_table_completion(l, line_start, offset, d1) {
            Some(c) => lemma_sorted_items_unique(r1, r2, c),
            None => match unit_completion(l, line_start, offset, i1.quantities@) {
                Some(c) => lemma_sorted_items_unique(r1, r2, c),
                None => lemma_sorted_items_unique(r1, r2, value_completion(l, line_start, offset, d1)),
            },
        },
    }
}

proof fn lemma_views_agree(i1: SemanticIndex, i2: SemanticIndex)
    requires
        crate::builder::defs_view(i1.definitions@) == crate::builder::defs_view(i2.definitions@),
        crate::builder::quants_view(i1.quantities@) == crate::builder::quants_view(i2.quantities@),
    ensures
        same_for_completion(i1.definitions@, i2.definitions@),
        same_units(i1.quantities@, i2.quantities@),
{
    let (d1, d2) = (i1.definitions@, i2.definitions@);
    let (q1, q2) = (i1.quantities@, i2.quantities@);
    assert(crate::builder::defs_view(d1).len() == d1.len());
    assert(crate::builder::defs_view(d2).len() == d2.len());
    assert forall|i: int| 0 <= i < d1.len() implies pv((#[trigger] d1[i]).path@) == pv(d2[i].path@) && d1[i].kind == d2[i].kind
        && d1[i].value_type == d2[i].value_type by {
        assert(crate::builder::defs_view(d1)[i] == crate::builder::defs_view(d2)[i]);
    }
    assert(crate::builder::quants_view(q1).len() == q1.len());
    assert(crate::builder::quants_view(q2).len() == q2.len());
    assert forall|i: int| 0 <= i < q1.len() implies (#[trigger] q1[i]).unit@ == q2[i].unit@ && match (q1[i].super_unit, q2[i].super_unit) {
        (Some(a), Some(b)) => a@ == b@,
        (None, None) => true,
        _ => false,
    } by {
        assert(crate::builder::quants_view(q1)[i] == crate::builder::quants_view(q2)[i]);
    }
}

/// Two analyses of one text have indexes that completion cannot tell apart.
pub proof fn lemma_analyses_agree_for_completion(text: Seq<char>, a1: Analysis, a2: Analysis)
    requires
        analysis_of(text, a1),
        analysis_of(text, a2),
    ensures
        a1.semantic matches Some(i1) && a2.semantic matches Some(i2) && same_for_completion(
            i1.definitions@,
            i2.definitions@,
        ) && same_units(i1.quantities@, i2.quantities@),
{
    lemma_analysis_has_index(text, a1);
    lemma_analysis_has_index(text, a2);
    let i1 = a1.semantic->Some_0;
    let i2 = a2.semantic->Some_0;
    let src = encode_utf8(text);
    let prefix_none = match atml_parse(text) {
        Ok(_) => false,
        Err(e) => if (e.kind == ParseErrorKind::KeyNotFound || e.kind == ParseErrorKind::CyclicPathRef)
            && crate::recovery::reference_ranges(src).len() > 0 && atml_parse(crate::recovery::recovered_text(src)) is Ok {
            false
        } else {
            let limit = if crate::error_offset(src, e) < src.len() { crate::error_offset(src, e) } else { src.len() as int };
            crate::parsable_prefix(src, line_start_before(src, limit)) is None
        },
    };
    if prefix_none {
        assert(i1.definitions@.len() == 0 && i2.definitions@.len() == 0);
        assert(i1.quantities@.len() == 0 && i2.quantities@.len() == 0);
    } else {
        assert(crate::builder::defs_view(i1.definitions@) == crate::builder::defs_view(i2.definitions@));
        assert(crate::builder::quants_view(i1.quantities@) == crate::builder::quants_view(i2.quantities@));
        lemma_views_agree(i1, i2);
    }
}

/// Completion is determined: every result that `complete`'s contract admits
/// at an offset is the same. Together with `lemma_completion_ignores_later_text`,
/// completing a text gives the same items as completing it cut at the cursor.
pub proof fn lemma_completion_determined(b: Seq<u8>, offset: int, a1: Analysis, r1: Seq<ItemView>, a2: Analysis, r2: Seq<ItemView>)
    requires
        completed_with(b, offset, a1, r1),
        completed_with(b, offset, a2, r2),
    ensures
        r1 == r2,
{
    let text = decode_utf8(b.subrange(0, completion_line_start(b, offset)));
    lemma_analyses_agree_for_completion(text, a1, a2);
    lemma_line_completions_same(
        completion_line(b, offset),
        completion_line_start(b, offset),
        completion_offset(b, offset),
        a1.semantic->Some_0,
        a2.semantic->Some_0,
        r1,
        r2,
    );
}

/// Text after the cursor never changes the completions: completing a text
/// at `offset` gives the same items as completing its first `o` bytes at `o`,
/// `o` being the offset clamped and moved back to a character boundary.
pub proof fn lemma_completion_independent_of_later_text(
    b: Seq<u8>,
    offset: int,
    a1: Analysis,
    r1: Seq<ItemView>,
    a2: Analysis,
    r2: Seq<ItemView>,
)
    requires
        valid_utf8(b),
        0 <= offset,
        completed_with(b, offset, a1, r1),
        completed_with(b.subrange(0, completion_offset(b, offset)), completion_offset(b, offset), a2, r2),
    ensures
        r1 == r2,
{
    lemma_completion_ignores_later_text(b, offset);
    let o = completion_offset(b, offset);
    assert(completed_with(b.subrange(0, o), o, a1, r1));
    lemma_completion_determined(b.subrange(0, o), o, a1, r1, a2, r2);
}

/// Produce context-sensitive completions at a UTF-8 byte offset.
///
/// The offset is clamped to the text and moved back to a character boundary.
/// Inside a comment or a string there are none. Otherwise the lines before the
/// offset's line are analyzed and the line up to the offset is completed with
/// their index.
pub fn complete(source: &str, offset: usize) -> (r: Vec<CompletionItem>)
    requires
        completion_slices(source.spec_bytes(), offset as int),
    ensures
        spec_in_comment_or_string(completion_line(source.spec_bytes(), offset as int)) ==> r@.len() == 0,
        !spec_in_comment_or_string(completion_line(source.spec_bytes(), offset as int)) ==> exists|a: Analysis|
            completed_with(source.spec_bytes(), offset as int, a, item_views(r@)),
{
    let (line_start, off) = completion_position(source, offset);
    let line = substr(source, line_start, off);
    if in_comment_or_string(line.as_bytes()) {
        return Vec::new();
    }
    proof {
        lemma_view_from_bytes(source);
        is_char_boundary_start_end_of_seq(source.spec_bytes());
    }
    let prefix = substr(source, 0, line_start);
    proof {
        lemma_view_from_bytes(prefix);
    }
    let prefix_analysis = analyze(prefix);
    proof {
        lemma_analysis_has_index(prefix@, prefix_analysis);
    }
    match &prefix_analysis.semantic {
        Some(index) => {
            let r = complete_line(line, line_start, off, index);
            proof {
                assert(completed_with(source.spec_bytes(), offset as int, prefix_analysis, item_views(r@)));
            }
            r
        },
        None => Vec::new(),
    }
}


/// `u` is the unit or the super-unit of quantity `q`.
pub open spec fn unit_of(q: QuantityOccurrence, u: Seq<char>) -> bool {
    q.unit@ == u || (q.super_unit is Some && q.super_unit->Some_0@ == u)
}

/// Where the unit being typed starts on the line, when the line ends in a
/// number followed by letters after `=` (after the last `/` or `*`, if any).
pub open spec fn unit_typed_start(l: Seq<u8>) -> Option<int> {
    match last_byte_before(l, l.len() as int, 61) {
        None => None,
        Some(equals) => {
            let token_start = trim_start_pos(l, equals + 1, l.len() as int);
            match spec_numeric_prefix_len(l.subrange(token_start, l.len() as int)) {
                None => None,
                Some(number_end) => {
                    let number_end = token_start + number_end;
                    let unit_start = match last_unit_separator(l, number_end, l.len() as int) {
                        Some(p) => p + 1,
                        None => number_end,
                    };
                    if all_letters(l.subrange(unit_start, l.len() as int)) {
                        Some(unit_start)
                    } else {
                        None
                    }
                },
            }
        },
    }
}

proof fn lemma_with_unit_keeps(items: Seq<ItemView>, unit: Seq<char>, typed: Seq<u8>, replace: ByteRange, label: Seq<char>)
    requires
        has_label(items, label),
    ensures
        has_label(with_unit(items, unit, typed, replace), label),
{
    let j = choose|j: int| 0 <= j < items.len() && (#[trigger] items[j]).0 == label;
    let w = with_unit(items, unit, typed, replace);
    assert(w[j] == items[j]);
}

proof fn lemma_with_unit_adds(items: Seq<ItemView>, unit: Seq<char>, typed: Seq<u8>, replace: ByteRange)
    requires
        typed.is_prefix_of(encode_utf8(unit)),
    ensures
        has_label(with_unit(items, unit, typed, replace), unit),
{
    let w = with_unit(items, unit, typed, replace);
    if !has_label(items, unit) {
        assert(w[w.len() - 1].0 == unit);
    }
}

/// The unit candidates among the first `n` quantities: every unit and
/// super-unit that starts with the typed text is offered, once, and each item
/// is such a unit, replacing `replace`.
proof fn lemma_unit_candidates(qs: Seq<QuantityOccurrence>, typed: Seq<u8>, replace: ByteRange, n: int)
    requires
        0 <= n <= qs.len(),
    ensures
        forall|k: int, u: Seq<char>|
            0 <= k < n && #[trigger] unit_of(qs[k], u) && typed.is_prefix_of(encode_utf8(u)) ==> has_label(
                unit_candidates(qs, typed, replace, n),
                u,
            ),
        forall|j: int|
            0 <= j < unit_candidates(qs, typed, replace, n).len() ==> {
                let item = #[trigger] unit_candidates(qs, typed, replace, n)[j];
                &&& item == unit_item(item.0, replace)
                &&& typed.is_prefix_of(encode_utf8(item.0))
                &&& exists|k: int| 0 <= k < n && unit_of(#[trigger] qs[k], item.0)
            },
        forall|i: int, j: int|
            0 <= i < j < unit_candidates(qs, typed, replace, n).len() ==> (#[trigger] unit_candidates(qs, typed, replace, n)[i]).0
                != (#[trigger] unit_candidates(qs, typed, replace, n)[j]).0,
    decreases n,
{
    if n > 0 {
        lemma_unit_candidates(qs, typed, replace, n - 1);
        let prev = unit_candidates(qs, typed, replace, n - 1);
        let q = qs[n - 1];
        let wp = with_unit(prev, q.unit@, typed, replace);
        let cur = unit_candidates(qs, typed, replace, n);
        assert forall|k: int, u: Seq<char>|
            0 <= k < n && #[trigger] unit_of(qs[k], u) && typed.is_prefix_of(encode_utf8(u)) implies has_label(cur, u) by {
            if k < n - 1 {
                lemma_with_unit_keeps(prev, q.unit@, typed, replace, u);
                if q.super_unit is Some {
                    lemma_with_unit_keeps(wp, q.super_unit->Some_0@, typed, replace, u);
                }
            } else if q.unit@ == u {
                lemma_with_unit_adds(prev, q.unit@, typed, replace);
                if q.super_unit is Some {
                    lemma_with_unit_keeps(wp, q.super_unit->Some_0@, typed, replace, u);
                }
            } else {
                lemma_with_unit_adds(wp, q.super_unit->Some_0@, typed, replace);
            }
        }
        assert forall|j: int| 0 <= j < wp.len() implies {
            let item = #[trigger] wp[j];
            &&& item == unit_item(item.0, replace)
            &&& typed.is_prefix_of(encode_utf8(item.0))
            &&& exists|k: int| 0 <= k < n && unit_of(#[trigger] qs[k], item.0)
        } by {
            if j < prev.len() {
                assert(wp[j] == prev[j]);
                let k = choose|k: int| 0 <= k < n - 1 && unit_of(#[trigger] qs[k], prev[j].0);
            } else {
                assert(unit_of(qs[n - 1], wp[j].0));
            }
        }
        assert forall|i: int, j: int| 0 <= i < j < wp.len() implies (#[trigger] wp[i]).0 != (#[trigger] wp[j]).0 by {
            if j < prev.len() {
                assert(wp[i] == prev[i] && wp[j] == prev[j]);
            } else {
                assert(wp[i] == prev[i]);
                assert(!has_label(prev, q.unit@));
            }
        }
        if q.super_unit is Some {
            let su = q.super_unit->Some_0@;
            assert forall|i: int, j: int| 0 <= i < j < cur.len() implies (#[trigger] cur[i]).0 != (#[trigger] cur[j]).0 by {
                if j < wp.len() {
                    assert(cur[i] == wp[i] && cur[j] == wp[j]);
                } else {
                    assert(cur[i] == wp[i]);
                    assert(!has_label(wp, su));
                }
            }
            assert forall|j: int| 0 <= j < cur.len() implies {
                let item = #[trigger] cur[j];
                &&& item == unit_item(item.0, replace)
                &&& typed.is_prefix_of(encode_utf8(item.0))
                &&& exists|k: int| 0 <= k < n && unit_of(#[trigger] qs[k], item.0)
            } by {
                if j < wp.len() {
                    assert(cur[j] == wp[j]);
                } else {
                    assert(unit_of(qs[n - 1], cur[j].0));
                }
            }
        }
    }
}

/// Unit completion offers exactly the units and super-units used in the
/// document that start with the unit typed after the number, each once, as a
/// unit item replacing the typed unit up to the cursor.
pub proof fn lemma_unit_completion_offers_units(l: Seq<u8>, line_start: int, offset: int, index: SemanticIndex, r: Seq<ItemView>)
    requires
        line_completions(l, line_start, offset, index, r),
        enum_member_completion(l, line_start, offset, index.definitions@) is None,
        parent_table_completion(l, line_start, offset, index.definitions@) is None,
        unit_completion(l, line_start, offset, index.quantities@) is Some,
    ensures
        unit_typed_start(l) matches Some(s) && {
            let qs = index.quantities@;
            let typed = l.subrange(s, l.len() as int);
            let replace = ByteRange { start: (line_start + s) as usize, end: offset as usize };
            &&& forall|k: int, u: Seq<char>|
                0 <= k < qs.len() && #[trigger] unit_of(qs[k], u) && typed.is_prefix_of(encode_utf8(u)) ==> exists|j: int|
                    0 <= j < r.len() && (#[trigger] r[j]) == unit_item(u, replace)
            &&& forall|j: int|
                0 <= j < r.len() ==> (#[trigger] r[j]) == unit_item(r[j].0, replace) && typed.is_prefix_of(
                    encode_utf8(r[j].0),
                ) && exists|k: int| 0 <= k < qs.len() && unit_of(#[trigger] qs[k], r[j].0)
            &&& forall|i: int, j: int| 0 <= i < j < r.len() ==> (#[trigger] r[i]).0 != (#[trigger] r[j]).0
        },
{
    let qs = index.quantities@;
    let s = unit_typed_start(l)->Some_0;
    let typed = l.subrange(s, l.len() as int);
    let replace = ByteRange { start: (line_start + s) as usize, end: offset as usize };
    let c = unit_candidates(qs, typed, replace, qs.len() as int);
    assert(unit_completion(l, line_start, offset, qs) == Some(c));
    assert(sorted_items_of(r, c));
    lemma_unit_candidates(qs, typed, replace, qs.len() as int);
    r.to_multiset_ensures();
    c.to_multiset_ensures();
    assert forall|k: int, u: Seq<char>|
        0 <= k < qs.len() && #[trigger] unit_of(qs[k], u) && typed.is_prefix_of(encode_utf8(u)) implies exists|j: int|
        0 <= j < r.len() && (#[trigger] r[j]) == unit_item(u, replace) by {
        let i = choose|i: int| 0 <= i < c.len() && (#[trigger] c[i]).0 == u;
        assert(c[i] == unit_item(u, replace));
        assert(c.contains(c[i]));
        assert(c.to_multiset().count(c[i]) > 0);
        assert(r.to_multiset().count(c[i]) > 0);
        assert(r.contains(c[i]));
    }
    assert forall|j: int| 0 <= j < r.len() implies (#[trigger] r[j]) == unit_item(r[j].0, replace) && typed.is_prefix_of(
        encode_utf8(r[j].0),
    ) && exists|k: int| 0 <= k < qs.len() && unit_of(#[trigger] qs[k], r[j].0) by {
        assert(r.contains(r[j]));
        assert(r.to_multiset().count(r[j]) > 0);
        assert(c.to_multiset().count(r[j]) > 0);
        assert(c.contains(r[j]));
        let i = choose|i: int| 0 <= i < c.len() && c[i] == r[j];
    }
    assert(c.no_duplicates()) by {
        assert forall|i: int, j: int| 0 <= i < c.len() && 0 <= j < c.len() && i != j implies c[i] != c[j] by {
            if i < j {
                assert(c[i].0 != c[j].0);
            } else {
                assert(c[j].0 != c[i].0);
            }
        }
    }
    c.lemma_multiset_has_no_duplicates();
    assert forall|x: ItemView| r.to_multiset().contains(x) implies r.to_multiset().count(x) == 1 by {
        assert(c.to_multiset().contains(x));
    }
    r.lemma_multiset_has_no_duplicates_conv();
    assert forall|i: int, j: int| 0 <= i < j < r.len() implies (#[trigger] r[i]).0 != (#[trigger] r[j]).0 by {
        assert(r.contains(r[i]));
        assert(r.contains(r[j]));
        assert(r.to_multiset().count(r[i]) > 0);
        assert(r.to_multiset().count(r[j]) > 0);
        assert(c.contains(r[i]));
        assert(c.contains(r[j]));
        let a = choose|a: int| 0 <= a < c.len() && c[a] == r[i];
        let b2 = choose|b2: int| 0 <= b2 < c.len() && c[b2] == r[j];
        assert(r[i] != r[j]);
    }
}

} // verus!
