//! Editor positions: a 0-based line and a column counted in UTF-16 code
//! units, and their conversion to and from UTF-8 byte offsets.
use vstd::prelude::*;
use vstd::std_specs::iter::IteratorSpec;
use vstd::string::StringSliceAdditionalSpecFns;
use vstd::utf8::*;

use crate::completion::{floor_boundary, floor_char_boundary};
use crate::semantic::{first_byte_from, lemma_first_byte_from};
use crate::text::{
    count_byte, count_byte_exec, find_byte, lemma_ascii_boundaries, lemma_encode_concat, lemma_view_from_bytes,
    rfind_byte, substr,
};
use crate::{last_byte_before, lemma_last_byte_before, line_start_before};

verus! {

broadcast use {vstd::utf8::encode_utf8_valid_utf8, vstd::utf8::is_char_boundary_start_end_of_seq};

#[derive(Debug, Clone, Copy, PartialEq, Eq, Structural)]
pub struct Position {
    pub line: u32,
    pub character: u32,
}

impl Position {
    pub fn new(line: u32, character: u32) -> (r: Self)
        ensures
            r.line == line,
            r.character == character,
    {
        Position { line, character }
    }
}

/// UTF-16 code units of a character: two for one outside the basic plane.
pub open spec fn utf16_width(c: char) -> nat {
    if (c as u32) >= 0x10000 {
        2
    } else {
        1
    }
}

/// UTF-16 code units of a text.
pub open spec fn utf16_len(s: Seq<char>) -> nat
    decreases s.len(),
{
    if s.len() == 0 {
        0
    } else {
        utf16_len(s.drop_last()) + utf16_width(s.last())
    }
}

fn utf16_width_exec(c: char) -> (r: u128)
    ensures
        r == utf16_width(c),
{
    if (c as u32) >= 0x10000 {
        2
    } else {
        1
    }
}

/// The UTF-16 length of a text.
pub fn utf16_units(s: &str) -> (r: u128)
    ensures
        r == utf16_len(s@),
{
    let n = s.unicode_len();
    let mut units: u128 = 0;
    let mut it = s.chars();
    let ghost all = s@;
    let mut i: usize = 0;
    proof {
        vstd::string::axiom_spec_iter(s);
    }
    loop
        invariant
            all == s@,
            n == all.len(),
            i <= n,
            it.remaining() == all.skip(i as int),
            it.obeys_prophetic_iter_laws(),
            units == utf16_len(all.take(i as int)),
            units <= 2 * i,
        decreases n - i,
    {
        let ghost before = it;
        let next = it.next();
        match next {
            Some(c) => {
                proof {
                    assert(all.skip(i as int).len() > 0);
                    assert(c == all[i as int]);
                    assert(all.take(i + 1).drop_last() =~= all.take(i as int));
                }
                units = units + utf16_width_exec(c);
                i = i + 1;
                proof {
                    assert(it.remaining() =~= all.skip(i as int));
                }
            },
            None => {
                proof {
                    assert(all.skip(i as int).len() == 0);
                    assert(all.take(i as int) =~= all);
                }
                return units;
            },
        }
    }
}


/// The editor position of byte `offset`: the offset is clamped to the text
/// and moved back to a character boundary; the line counts the line feeds
/// before it, the column the UTF-16 units since the line start.
pub open spec fn spec_byte_to_position(b: Seq<u8>, offset: int) -> Position {
    let o = floor_boundary(b, if offset < b.len() { offset } else { b.len() as int });
    let line_start = match last_byte_before(b, o, 10) {
        Some(i) => i + 1,
        None => 0,
    };
    Position {
        line: count_byte(b, o, 10) as u32,
        character: utf16_len(decode_utf8(b.subrange(line_start, o))) as u32,
    }
}

pub fn byte_to_position(text: &str, byte_offset: usize) -> (r: Position)
    ensures
        r == spec_byte_to_position(text.spec_bytes(), byte_offset as int),
{
    let b = text.as_bytes();
    proof {
        lemma_view_from_bytes(text);
    }
    let clamped = if byte_offset < b.len() {
        byte_offset
    } else {
        b.len()
    };
    let o = floor_char_boundary(text, clamped);
    let lines = count_byte_exec(b, o, 10);
    let line_start = match rfind_byte(b, 0, o, 10) {
        Some(i) => i + 1,
        None => 0,
    };
    proof {
        lemma_last_byte_before(b@, o as int, 10);
        if let Some(i) = last_byte_before(b@, o as int, 10) {
            lemma_ascii_boundaries(b@, i);
        }
    }
    let segment = substr(text, line_start, o);
    proof {
        lemma_view_from_bytes(segment);
    }
    let units = utf16_units(segment);
    Position { line: lines as u32, character: units as u32 }
}


/// Each character adds at least one UTF-16 unit.
pub proof fn lemma_utf16_grows(s: Seq<char>, i: int, j: int)
    requires
        0 <= i <= j <= s.len(),
    ensures
        utf16_len(s.take(i)) + (j - i) <= utf16_len(s.take(j)),
    decreases j - i,
{
    if i < j {
        lemma_utf16_grows(s, i, j - 1);
        assert(s.take(j).drop_last() =~= s.take(j - 1));
    }
}

/// The encoding of a prefix of a text ends on a character boundary of the
/// encoding of the whole text.
pub proof fn lemma_prefix_boundary(a: Seq<char>, c: Seq<char>)
    ensures
        is_char_boundary(encode_utf8(a + c), encode_utf8(a).len() as int),
    decreases a.len(),
{
    if a.len() > 0 {
        let x = a + c;
        let bytes = encode_utf8(x);
        assert(x[0] == a[0]);
        assert(x.drop_first() =~= a.drop_first() + c);
        encode_utf8_first_scalar(x);
        lemma_encode_concat(a, c);
        lemma_encode_concat(a.drop_first(), c);
        let w = encode_scalar(a[0] as u32).len();
        assert(bytes == encode_scalar(x[0] as u32) + encode_utf8(x.drop_first()));
        assert(pop_first_scalar(bytes) =~= encode_utf8(x.drop_first()));
        assert(encode_utf8(a) == encode_scalar(a[0] as u32) + encode_utf8(a.drop_first()));
        lemma_prefix_boundary(a.drop_first(), c);
    }
}

/// The `k`-th (0-based) occurrence of byte `c` at or after `from`.
pub open spec fn nth_byte_from(b: Seq<u8>, from: int, k: nat, c: u8) -> Option<int>
    decreases k,
{
    match first_byte_from(b, from, c) {
        None => None,
        Some(i) => if k == 0 {
            Some(i)
        } else {
            nth_byte_from(b, i + 1, (k - 1) as nat, c)
        },
    }
}

/// Where line `line` (0-based) starts: at 0, or just after the line-th line feed.
pub open spec fn line_start_at(b: Seq<u8>, line: nat) -> Option<int> {
    if line == 0 {
        Some(0)
    } else {
        match nth_byte_from(b, 0, (line - 1) as nat, 10) {
            Some(i) => Some(i + 1),
            None => None,
        }
    }
}

/// Where the line starting at `s` ends: at its line feed, or at the end.
pub open spec fn line_end_from(b: Seq<u8>, s: int) -> int {
    match first_byte_from(b, s, 10) {
        Some(i) => i,
        None => b.len() as int,
    }
}

/// The byte offset, within a line of characters `chars`, of the place where
/// `character` UTF-16 units precede: none when no place has exactly as many.
pub open spec fn column_offset(chars: Seq<char>, character: nat) -> Option<int> {
    if exists|k: int| 0 <= k <= chars.len() && #[trigger] utf16_len(chars.take(k)) == character {
        let k = choose|k: int| 0 <= k <= chars.len() && #[trigger] utf16_len(chars.take(k)) == character;
        Some(encode_utf8(chars.take(k)).len() as int)
    } else {
        None
    }
}

/// The byte offset of an editor position: none when the line does not exist
/// or the column is not on a character of it (or its end).
pub open spec fn spec_position_to_byte(b: Seq<u8>, p: Position) -> Option<int> {
    match line_start_at(b, p.line as nat) {
        None => None,
        Some(s) => match column_offset(decode_utf8(b.subrange(s, line_end_from(b, s))), p.character as nat) {
            Some(k) => Some(s + k),
            None => None,
        },
    }
}

fn find_first_byte(b: &[u8], from: usize, c: u8) -> (r: Option<usize>)
    requires
        from <= b@.len(),
    ensures
        match r {
            Some(i) => first_byte_from(b@, from as int, c) == Some(i as int),
            None => first_byte_from(b@, from as int, c) is None,
        },
{
    proof {
        lemma_first_byte_from(b@, from as int, c);
    }
    find_byte(b, from, b.len(), c)
}

fn utf8_width_exec(c: char) -> (r: usize)
    ensures
        r == encode_scalar(c as u32).len(),
{
    let v = c as u32;
    proof {
        char_is_scalar(c);
    }
    if v <= 0x7f {
        1
    } else if v <= 0x7ff {
        2
    } else if v <= 0xffff {
        3
    } else {
        4
    }
}

/// An offset inside a line that ends a character of the line is a character
/// boundary of the whole text.
pub proof fn lemma_line_offset_boundary(bs: Seq<u8>, s: int, e: int, k: int)
    requires
        valid_utf8(bs),
        0 <= s <= e <= bs.len(),
        is_char_boundary(bs, s),
        is_char_boundary(bs, e),
        0 <= k <= decode_utf8(bs.subrange(s, e)).len(),
    ensures
        is_char_boundary(bs, s + encode_utf8(decode_utf8(bs.subrange(s, e)).take(k)).len()),
{
    let chars = decode_utf8(bs.subrange(s, e));
    let p = decode_utf8(bs.subrange(0, s));
    decode_utf8_split(bs, s);
    valid_utf8_split(bs, s);
    decode_utf8_encode_utf8(bs.subrange(0, s));
    let tail = bs.subrange(s, bs.len() as int);
    crate::text::lemma_boundary_in_suffix(bs, s, e);
    decode_utf8_split(tail, e - s);
    assert(tail.subrange(0, e - s) =~= bs.subrange(s, e));
    let r = decode_utf8(tail.subrange(e - s, tail.len() as int));
    assert(decode_utf8(bs) =~= (p + chars.take(k)) + (chars.skip(k) + r));
    lemma_prefix_boundary(p + chars.take(k), chars.skip(k) + r);
    decode_utf8_encode_utf8(bs);
    lemma_encode_concat(p, chars.take(k));
}

/// Where line `line` starts, found by counting line feeds.
fn line_start_exec(b: &[u8], line: u32) -> (r: Option<usize>)
    requires
        valid_utf8(b@),
    ensures
        match r {
            Some(s) => line_start_at(b@, line as nat) == Some(s as int) && s <= b@.len() && is_char_boundary(
                b@,
                s as int,
            ),
            None => line_start_at(b@, line as nat) is None,
        },
{
    if line == 0 {
        return Some(0);
    }
    let target: u32 = line - 1;
    let mut k: u32 = 0;
    let mut from: usize = 0;
    while from <= b.len()
        invariant
            valid_utf8(b@),
            line > 0,
            target == line - 1,
            k <= target,
            from <= b@.len(),
            nth_byte_from(b@, 0, target as nat, 10) == nth_byte_from(b@, from as int, (target - k) as nat, 10),
        decreases b@.len() - from,
    {
        match find_first_byte(b, from, 10) {
            None => {
                return None;
            },
            Some(i) => {
                proof {
                    lemma_first_byte_from(b@, from as int, 10);
                }
                if k == target {
                    proof {
                        lemma_ascii_boundaries(b@, i as int);
                    }
                    return Some(i + 1);
                }
                k = k + 1;
                from = i + 1;
            },
        }
    }
    None
}

pub fn position_to_byte(text: &str, position: Position) -> (r: Option<usize>)
    ensures
        match r {
            Some(o) => spec_position_to_byte(text.spec_bytes(), position) == Some(o as int) && o
                <= text.spec_bytes().len() && is_char_boundary(text.spec_bytes(), o as int),
            None => spec_position_to_byte(text.spec_bytes(), position) is None,
        },
{
    let b = text.as_bytes();
    let ghost bs = b@;
    proof {
        lemma_view_from_bytes(text);
    }
    let line_start = match line_start_exec(b, position.line) {
        Some(s) => s,
        None => return None,
    };
    let line_end = match find_first_byte(b, line_start, 10) {
        Some(i) => i,
        None => b.len(),
    };
    proof {
        lemma_first_byte_from(bs, line_start as int, 10);
        if line_end < bs.len() {
            lemma_ascii_boundaries(bs, line_end as int);
        }
    }
    let line = substr(text, line_start, line_end);
    let ghost chars = line@;
    proof {
        lemma_view_from_bytes(line);
        crate::text::lemma_boundary_in_suffix(bs, line_start as int, line_end as int);
        let tail = bs.subrange(line_start as int, bs.len() as int);
        valid_utf8_split(tail, line_end - line_start);
        assert(tail.subrange(0, line_end - line_start) =~= bs.subrange(line_start as int, line_end as int));
        decode_utf8_encode_utf8(bs.subrange(line_start as int, line_end as int));
        assert(chars == decode_utf8(bs.subrange(line_start as int, line_end as int)));
        assert(line_end == line_end_from(bs, line_start as int));
    }
    let target: u128 = position.character as u128;
    let n = line.unicode_len();
    let mut it = line.chars();
    let mut i: usize = 0;
    let mut col: u128 = 0;
    let mut byte: usize = 0;
    proof {
        vstd::string::axiom_spec_iter(line);
    }
    loop
        invariant
            chars == line@,
            bs == text.spec_bytes(),
            valid_utf8(bs),
            chars == decode_utf8(bs.subrange(line_start as int, line_end as int)),
            line_end == line_end_from(bs, line_start as int),
            line_start_at(bs, position.line as nat) == Some(line_start as int),
            is_char_boundary(bs, line_start as int),
            is_char_boundary(bs, line_end as int),
            n == chars.len(),
            encode_utf8(chars).len() == line_end - line_start,
            line_start <= line_end <= bs.len(),
            i <= n,
            it.remaining() == chars.skip(i as int),
            it.obeys_prophetic_iter_laws(),
            col == utf16_len(chars.take(i as int)),
            col <= target,
            target == position.character,
            byte == encode_utf8(chars.take(i as int)).len(),
            forall|k: int| 0 <= k < i ==> utf16_len(#[trigger] chars.take(k)) != target,
        decreases n - i,
    {
        proof {
            lemma_encode_concat(chars.take(i as int), chars.skip(i as int));
            assert(chars.take(i as int) + chars.skip(i as int) =~= chars);
        }
        if col == target {
            proof {
                assert(utf16_len(chars.take(i as int)) == target);
                let k = choose|k: int| 0 <= k <= chars.len() && #[trigger] utf16_len(chars.take(k)) == target;
                if k < i {
                    lemma_utf16_grows(chars, k, i as int);
                } else if k > i {
                    lemma_utf16_grows(chars, i as int, k);
                }
                lemma_line_offset_boundary(bs, line_start as int, line_end as int, i as int);
            }
            return Some(line_start + byte);
        }
        let next = it.next();
        match next {
            Some(c) => {
                proof {
                    assert(chars.skip(i as int).len() > 0);
                    assert(c == chars[i as int]);
                    assert(chars.take(i + 1).drop_last() =~= chars.take(i as int));
                    assert(chars.take(i + 1) =~= chars.take(i as int) + seq![c]);
                    lemma_encode_concat(chars.take(i as int), seq![c]);
                    assert(seq![c].drop_first() =~= Seq::<char>::empty());
                    assert(encode_utf8(Seq::<char>::empty()) =~= Seq::<u8>::empty());
                    assert(seq![c][0] == c);
                    assert(encode_utf8(seq![c]) =~= encode_scalar(c as u32));
                    lemma_encode_concat(chars.take(i + 1), chars.skip(i + 1));
                    assert(chars.take(i + 1) + chars.skip(i + 1) =~= chars);
                }
                col = col + utf16_width_exec(c);
                byte = byte + utf8_width_exec(c);
                i = i + 1;
                proof {
                    assert(it.remaining() =~= chars.skip(i as int));
                }
                if col > target {
                    proof {
                        assert forall|k: int| 0 <= k <= chars.len() implies #[trigger] utf16_len(chars.take(k))
                            != target by {
                            if k < i {
                                lemma_utf16_grows(chars, k, i - 1);
                            } else {
                                lemma_utf16_grows(chars, i as int, k);
                            }
                        }
                    }
                    return None;
                }
            },
            None => {
                proof {
                    assert(chars.skip(i as int).len() == 0);
                    assert(chars.take(i as int) =~= chars);
                    assert forall|k: int| 0 <= k <= chars.len() implies #[trigger] utf16_len(chars.take(k))
                        != target by {
                        if k < i {
                            lemma_utf16_grows(chars, k, i as int);
                        }
                    }
                }
                return None;
            },
        }
    }
}


// ---------------------------------------------------------------------------
// Laws of the conversions
// ---------------------------------------------------------------------------
pub proof fn lemma_utf16_concat(a: Seq<char>, c: Seq<char>)
    ensures
        utf16_len(a + c) == utf16_len(a) + utf16_len(c),
    decreases c.len(),
{
    if c.len() == 0 {
        assert(a + c =~= a);
    } else {
        lemma_utf16_concat(a, c.drop_last());
        assert((a + c).drop_last() =~= a + c.drop_last());
        assert((a + c).last() == c.last());
    }
}

/// A text never has more UTF-16 units than UTF-8 bytes.
pub proof fn lemma_utf16_at_most_bytes(s: Seq<char>)
    ensures
        utf16_len(s) <= encode_utf8(s).len(),
    decreases s.len(),
{
    if s.len() > 0 {
        let c = s.last();
        lemma_utf16_at_most_bytes(s.drop_last());
        assert(s.drop_last() + seq![c] =~= s);
        lemma_encode_concat(s.drop_last(), seq![c]);
        assert(seq![c].drop_first() =~= Seq::<char>::empty());
        assert(encode_utf8(Seq::<char>::empty()) =~= Seq::<u8>::empty());
        assert(seq![c][0] == c);
        assert(encode_utf8(seq![c]) =~= encode_scalar(c as u32));
        char_is_scalar(c);
    }
}

/// The boundary that `floor_boundary` finds is at or after every boundary below it.
pub proof fn lemma_floor_boundary(b: Seq<u8>, a: int, c: int)
    requires
        valid_utf8(b),
        0 <= a <= c <= b.len(),
        is_char_boundary(b, a),
    ensures
        a <= floor_boundary(b, c) <= c,
        is_char_boundary(b, floor_boundary(b, c)),
    decreases c,
{
    if c > 0 && !is_char_boundary(b, c) {
        lemma_floor_boundary(b, a, c - 1);
    }
}

/// Counting a byte: the count never falls, and stays the same exactly over
/// a stretch without that byte.
pub proof fn lemma_count_range(b: Seq<u8>, x: int, y: int, c: u8)
    requires
        0 <= x <= y <= b.len(),
    ensures
        count_byte(b, x, c) <= count_byte(b, y, c),
        count_byte(b, y, c) - count_byte(b, x, c) <= y - x,
        count_byte(b, x, c) == count_byte(b, y, c) <==> forall|j: int| x <= j < y ==> b[j] != c,
    decreases y - x,
{
    if x < y {
        lemma_count_range(b, x, y - 1, c);
        if b[y - 1] == c {
            assert(!(forall|j: int| x <= j < y ==> b[j] != c) || b[y - 1] != c);
        }
    }
}

/// The k-th occurrence after `from` is the last one before `o` when exactly
/// k + 1 occur in between.
pub proof fn lemma_nth_is_last(b: Seq<u8>, from: int, o: int, k: nat, c: u8)
    requires
        0 <= from <= o <= b.len(),
        count_byte(b, o, c) == count_byte(b, from, c) + k + 1,
    ensures
        nth_byte_from(b, from, k, c) == last_byte_before(b, o, c),
    decreases k,
{
    lemma_first_byte_from(b, from, c);
    lemma_count_range(b, from, o, c);
    match first_byte_from(b, from, c) {
        None => {
            assert(false);
        },
        Some(i) => {
            if i >= o {
                assert(forall|j: int| from <= j < o ==> b[j] != c);
                assert(false);
            }
            lemma_count_range(b, from, i, c);
            assert(count_byte(b, i + 1, c) == count_byte(b, from, c) + 1);
            lemma_count_range(b, i + 1, o, c);
            lemma_last_byte_before(b, o, c);
            if k == 0 {
                match last_byte_before(b, o, c) {
                    Some(l) => {
                        if l > i {
                            assert(b[l] != c);
                        } else if l < i {
                            assert(b[i] != c);
                        }
                    },
                    None => {
                        assert(b[i] != c);
                    },
                }
            } else {
                lemma_nth_is_last(b, i + 1, o, (k - 1) as nat, c);
            }
        },
    }
}

/// Decoding a stretch split at a boundary decodes its two parts.
pub proof fn lemma_decode_parts(b: Seq<u8>, s: int, m: int, e: int)
    requires
        valid_utf8(b),
        0 <= s <= m <= e <= b.len(),
        is_char_boundary(b, s),
        is_char_boundary(b, m),
        is_char_boundary(b, e),
    ensures
        decode_utf8(b.subrange(s, e)) == decode_utf8(b.subrange(s, m)) + decode_utf8(b.subrange(m, e)),
        valid_utf8(b.subrange(s, e)),
        valid_utf8(b.subrange(s, m)),
{
    let y = b.subrange(s, b.len() as int);
    crate::text::lemma_boundary_in_suffix(b, s, m);
    crate::text::lemma_boundary_in_suffix(b, s, e);
    decode_utf8_split(y, e - s);
    decode_utf8_split(y, m - s);
    valid_utf8_split(y, e - s);
    valid_utf8_split(y, m - s);
    crate::text::lemma_boundary_in_suffix(y, m - s, e - s);
    let z = y.subrange(m - s, y.len() as int);
    decode_utf8_split(z, e - m);
    assert(y.subrange(0, e - s) =~= b.subrange(s, e));
    assert(y.subrange(0, m - s) =~= b.subrange(s, m));
    assert(z.subrange(0, e - m) =~= b.subrange(m, e));
    assert(z.subrange(e - m, z.len() as int) =~= y.subrange(e - s, y.len() as int));
    let p = decode_utf8(b.subrange(s, m));
    let q = decode_utf8(b.subrange(m, e));
    let t = decode_utf8(y.subrange(e - s, y.len() as int));
    let w = decode_utf8(b.subrange(s, e));
    assert(w + t == p + q + t);
    assert(w =~= (w + t).subrange(0, w.len() as int));
    assert((p + q) =~= (p + q + t).subrange(0, (p + q).len() as int));
}

/// Positions follow byte offsets: a later offset is on a later line, or on
/// the same line at the same or a later column (for texts whose offsets fit
/// in an editor position).
pub proof fn lemma_position_monotone(b: Seq<u8>, x: int, y: int)
    requires
        valid_utf8(b),
        b.len() <= u32::MAX,
        0 <= x <= y,
    ensures
        spec_byte_to_position(b, x).line <= spec_byte_to_position(b, y).line,
        spec_byte_to_position(b, x).line == spec_byte_to_position(b, y).line ==> spec_byte_to_position(
            b,
            x,
        ).character <= spec_byte_to_position(b, y).character,
{
    let cx = if x < b.len() { x } else { b.len() as int };
    let cy = if y < b.len() { y } else { b.len() as int };
    let ox = floor_boundary(b, cx);
    lemma_floor_boundary(b, 0, cx);
    lemma_floor_boundary(b, ox, cy);
    let oy = floor_boundary(b, cy);
    lemma_count_range(b, ox, oy, 10);
    lemma_count_range(b, 0, oy, 10);
    lemma_count_range(b, 0, ox, 10);
    if count_byte(b, ox, 10) == count_byte(b, oy, 10) {
        lemma_last_byte_before(b, ox, 10);
        lemma_last_byte_before(b, oy, 10);
        assert(last_byte_before(b, ox, 10) == last_byte_before(b, oy, 10)) by {
            match last_byte_before(b, oy, 10) {
                Some(l) => {
                    match last_byte_before(b, ox, 10) {
                        Some(l2) => {
                            assert(b[l2] == 10);
                        },
                        None => {},
                    }
                },
                None => {},
            }
        }
        let ls = line_start_before(b, ox);
        lemma_last_byte_before(b, ox, 10);
        if let Some(i) = last_byte_before(b, ox, 10) {
            crate::text::lemma_ascii_boundaries(b, i);
        }
        lemma_decode_parts(b, ls, ox, oy);
        lemma_utf16_concat(decode_utf8(b.subrange(ls, ox)), decode_utf8(b.subrange(ox, oy)));
        lemma_decode_parts(b, ls, oy, oy);
        crate::text::lemma_decode_len(b.subrange(ls, oy));
        decode_utf8_encode_utf8(b.subrange(ls, oy));
        lemma_utf16_at_most_bytes(decode_utf8(b.subrange(ls, oy)));
    }
}

/// Converting a byte offset to a position and back gives the offset,
/// clamped to the text and moved back to a character boundary (for texts
/// whose offsets fit in an editor position).
pub proof fn lemma_position_round_trip(b: Seq<u8>, x: int)
    requires
        valid_utf8(b),
        b.len() <= u32::MAX,
        0 <= x,
    ensures
        spec_position_to_byte(b, spec_byte_to_position(b, x)) == Some(
            floor_boundary(b, if x < b.len() { x } else { b.len() as int }),
        ),
{
    let c = if x < b.len() { x } else { b.len() as int };
    let o = floor_boundary(b, c);
    lemma_floor_boundary(b, 0, c);
    let p = spec_byte_to_position(b, x);
    lemma_count_range(b, 0, o, 10);
    lemma_last_byte_before(b, o, 10);
    let ls = line_start_before(b, o);
    // the line start
    if count_byte(b, o, 10) == 0 {
        if let Some(i) = last_byte_before(b, o, 10) {
            assert(b[i] == 10);
        }
        assert(line_start_at(b, p.line as nat) == Some(0int));
    } else {
        lemma_nth_is_last(b, 0, o, (count_byte(b, o, 10) - 1) as nat, 10);
        assert(line_start_at(b, p.line as nat) == Some(ls));
    }
    if let Some(i) = last_byte_before(b, o, 10) {
        crate::text::lemma_ascii_boundaries(b, i);
    }
    // the line end is at or after the offset
    lemma_first_byte_from(b, ls, 10);
    let e = line_end_from(b, ls);
    assert(o <= e) by {
        if let Some(j) = first_byte_from(b, ls, 10) {
            if j < o {
                assert(b[j] == 10);
            }
        }
    }
    if e < b.len() {
        crate::text::lemma_ascii_boundaries(b, e);
    }
    lemma_decode_parts(b, ls, o, e);
    let chars = decode_utf8(b.subrange(ls, e));
    let head = decode_utf8(b.subrange(ls, o));
    let k = head.len() as int;
    assert(chars.take(k) =~= head);
    // the column is exact
    lemma_decode_parts(b, ls, o, o);
    decode_utf8_encode_utf8(b.subrange(ls, o));
    lemma_utf16_at_most_bytes(head);
    assert(p.character == utf16_len(head));
    assert(utf16_len(chars.take(k)) == p.character as nat);
    let k2 = choose|j: int| 0 <= j <= chars.len() && #[trigger] utf16_len(chars.take(j)) == p.character as nat;
    if k2 < k {
        lemma_utf16_grows(chars, k2, k);
    } else if k2 > k {
        lemma_utf16_grows(chars, k, k2);
    }
    assert(column_offset(chars, p.character as nat) == Some(o - ls));
}

/// A longer prefix of a text encodes to more bytes.
proof fn lemma_encode_take_grows(chars: Seq<char>, j1: int, j2: int)
    requires
        0 <= j1 < j2 <= chars.len(),
    ensures
        encode_utf8(chars.take(j1)).len() < encode_utf8(chars.take(j2)).len(),
{
    let mid = chars.subrange(j1, j2);
    assert(chars.take(j2) =~= chars.take(j1) + mid);
    crate::text::lemma_encode_concat(chars.take(j1), mid);
    assert(encode_utf8(mid).len() >= 1);
}

/// The position after the `k`-th line feed from `from` counts `k + 1` more
/// line feeds than `from`.
proof fn lemma_nth_count(b: Seq<u8>, from: int, k: nat, c: u8)
    requires
        0 <= from <= b.len(),
        nth_byte_from(b, from, k, c) is Some,
    ensures
        ({
            let i = nth_byte_from(b, from, k, c)->0;
            &&& from <= i < b.len()
            &&& b[i] == c
            &&& count_byte(b, i + 1, c) == count_byte(b, from, c) + k + 1
        }),
    decreases k,
{
    lemma_first_byte_from(b, from, c);
    let i0 = first_byte_from(b, from, c)->0;
    lemma_count_range(b, from, i0, c);
    if k > 0 {
        lemma_nth_count(b, i0 + 1, (k - 1) as nat, c);
    }
}

/// Converting an editor position to a byte offset and back gives the
/// position, whenever the position names a place in the text (for texts
/// whose offsets fit in an editor position).
pub proof fn lemma_byte_round_trip(b: Seq<u8>, p: Position)
    requires
        valid_utf8(b),
        b.len() <= u32::MAX,
        spec_position_to_byte(b, p) is Some,
    ensures
        spec_byte_to_position(b, spec_position_to_byte(b, p)->0) == p,
{
    is_char_boundary_start_end_of_seq(b);
    let s = line_start_at(b, p.line as nat)->0;
    if p.line > 0 {
        lemma_nth_count(b, 0, (p.line - 1) as nat, 10);
        crate::text::lemma_ascii_boundaries(b, s - 1);
    }
    assert(count_byte(b, s, 10) == p.line) by {
        if p.line == 0 {
            assert(count_byte(b, 0, 10) == 0);
        }
    }
    lemma_first_byte_from(b, s, 10);
    let e = line_end_from(b, s);
    if e < b.len() {
        crate::text::lemma_ascii_boundaries(b, e);
    }
    let chars = decode_utf8(b.subrange(s, e));
    let ch = p.character as nat;
    let j = choose|j: int| 0 <= j <= chars.len() && #[trigger] utf16_len(chars.take(j)) == ch;
    let o = s + encode_utf8(chars.take(j)).len();
    assert(spec_position_to_byte(b, p) == Some(o));
    lemma_line_offset_boundary(b, s, e, j);
    // o lies within the line
    lemma_decode_parts(b, s, s, e);
    decode_utf8_encode_utf8(b.subrange(s, e));
    assert(chars =~= chars.take(j) + chars.skip(j));
    crate::text::lemma_encode_concat(chars.take(j), chars.skip(j));
    assert(s <= o <= e);
    // the offset is its own boundary
    assert(floor_boundary(b, if o < b.len() { o } else { b.len() as int }) == o);
    // no line feed between the line start and the offset
    assert forall|x: int| s <= x < o implies b[x] != 10 by {
        if let Some(f) = first_byte_from(b, s, 10) {
            assert(x < f);
        }
    }
    lemma_count_range(b, s, o, 10);
    // the line start seen from the offset
    lemma_last_byte_before(b, o, 10);
    if p.line == 0 {
        lemma_count_range(b, 0, o, 10);
        if let Some(i) = last_byte_before(b, o, 10) {
            assert(b[i] == 10);
        }
    } else {
        lemma_nth_is_last(b, 0, o, (p.line - 1) as nat, 10);
    }
    // the column
    lemma_decode_parts(b, s, o, e);
    let head = decode_utf8(b.subrange(s, o));
    assert(chars =~= head + decode_utf8(b.subrange(o, e)));
    decode_utf8_encode_utf8(b.subrange(s, o));
    let m = head.len() as int;
    assert(chars.take(m) =~= head);
    if m < j {
        lemma_encode_take_grows(chars, m, j);
    } else if j < m {
        lemma_encode_take_grows(chars, j, m);
    }
    assert(head == chars.take(j));
}

} // verus!
