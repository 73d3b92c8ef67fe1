//! Byte-level text primitives over UTF-8 source text.
//!
//! All offsets are UTF-8 byte offsets. The ATML delimiters that the analysis
//! looks for are ASCII, and in valid UTF-8 an ASCII byte never occurs inside
//! the encoding of another character, so scanning bytes finds exactly the
//! characters a `char` scan would find.
use vstd::prelude::*;
use vstd::string::StringSliceAdditionalSpecFns;
use vstd::utf8::*;

verus! {

broadcast use {
    vstd::utf8::encode_utf8_valid_utf8,
    vstd::utf8::is_char_boundary_start_end_of_seq,
    vstd::slice::group_slice_axioms,
};

/// `A..=Z` or `a..=z`.
pub open spec fn is_ascii_alpha(b: u8) -> bool {
    (65 <= b <= 90) || (97 <= b <= 122)
}

/// `0..=9`.
pub open spec fn is_ascii_digit(b: u8) -> bool {
    48 <= b <= 57
}

pub open spec fn is_ascii_alnum(b: u8) -> bool {
    is_ascii_alpha(b) || is_ascii_digit(b)
}

/// Bytes allowed after the first one of a bare ATML name: letters, digits, `_`, `-`.
pub open spec fn is_name_byte(b: u8) -> bool {
    is_ascii_alnum(b) || b == 95 || b == 45
}

/// Bytes allowed in a partially typed path: letters, digits, `_`, `-`, `.`.
pub open spec fn is_path_prefix_byte(b: u8) -> bool {
    is_name_byte(b) || b == 46
}

/// The ASCII whitespace of `u8::is_ascii_whitespace`: space, tab, LF, FF, CR.
pub open spec fn is_ascii_whitespace(b: u8) -> bool {
    b == 32 || b == 9 || b == 10 || b == 12 || b == 13
}

pub fn ascii_alpha(b: u8) -> (r: bool)
    ensures
        r == is_ascii_alpha(b),
{
    (65 <= b && b <= 90) || (97 <= b && b <= 122)
}

pub fn ascii_digit(b: u8) -> (r: bool)
    ensures
        r == is_ascii_digit(b),
{
    48 <= b && b <= 57
}

pub fn ascii_alnum(b: u8) -> (r: bool)
    ensures
        r == is_ascii_alnum(b),
{
    ascii_alpha(b) || ascii_digit(b)
}

pub fn name_byte(b: u8) -> (r: bool)
    ensures
        r == is_name_byte(b),
{
    ascii_alnum(b) || b == 95 || b == 45
}

pub fn ascii_whitespace(b: u8) -> (r: bool)
    ensures
        r == is_ascii_whitespace(b),
{
    b == 32 || b == 9 || b == 10 || b == 12 || b == 13
}

/// The UTF-8 bytes of a `String`.
pub open spec fn bytes_of(s: String) -> Seq<u8> {
    encode_utf8(s@)
}

pub fn string_bytes(s: &String) -> (b: &[u8])
    ensures
        b@ == bytes_of(*s),
{
    s.as_str().as_bytes()
}

/// A valid path prefix consists of letters, digits, `_`, `-` and `.` only.
pub open spec fn spec_is_path_prefix(b: Seq<u8>) -> bool {
    forall|i: int| 0 <= i < b.len() ==> is_path_prefix_byte(#[trigger] b[i])
}

/// Whether every byte of `b[from..to]` may appear in a partially typed path.
pub fn is_path_prefix_range(b: &[u8], from: usize, to: usize) -> (r: bool)
    requires
        from <= to <= b@.len(),
    ensures
        r == spec_is_path_prefix(b@.subrange(from as int, to as int)),
{
    let mut i = from;
    while i < to
        invariant
            from <= i <= to <= b@.len(),
            forall|k: int| from <= k < i ==> is_path_prefix_byte(#[trigger] b@[k]),
        decreases to - i,
    {
        if !(name_byte(b[i]) || b[i] == 46) {
            assert(!is_path_prefix_byte(b@.subrange(from as int, to as int)[i - from]));
            return false;
        }
        i = i + 1;
    }
    assert forall|k: int| 0 <= k < to - from implies is_path_prefix_byte(
        #[trigger] b@.subrange(from as int, to as int)[k],
    ) by {
        assert(b@.subrange(from as int, to as int)[k] == b@[from + k]);
    }
    true
}

/// `value` consists of letters, digits, `_`, `-` and `.` only.
pub fn is_path_prefix(value: &str) -> (r: bool)
    ensures
        r == spec_is_path_prefix(value.spec_bytes()),
{
    let b = value.as_bytes();
    let r = is_path_prefix_range(b, 0, b.len());
    assert(b@.subrange(0, b@.len() as int) =~= b@);
    r
}

/// A bare ATML name: a letter or `_`, then letters, digits, `_` or `-`.
pub open spec fn spec_is_bare_name(b: Seq<u8>) -> bool {
    &&& b.len() > 0
    &&& (is_ascii_alpha(b[0]) || b[0] == 95)
    &&& forall|i: int| 1 <= i < b.len() ==> is_name_byte(#[trigger] b[i])
}

pub fn is_bare_name_range(b: &[u8], from: usize, to: usize) -> (r: bool)
    requires
        from <= to <= b@.len(),
    ensures
        r == spec_is_bare_name(b@.subrange(from as int, to as int)),
{
    let ghost s = b@.subrange(from as int, to as int);
    if from == to {
        return false;
    }
    if !(ascii_alpha(b[from]) || b[from] == 95) {
        assert(s[0] == b@[from as int]);
        return false;
    }
    let mut i = from + 1;
    while i < to
        invariant
            from < i <= to <= b@.len(),
            s == b@.subrange(from as int, to as int),
            forall|k: int| from + 1 <= k < i ==> is_name_byte(#[trigger] b@[k]),
        decreases to - i,
    {
        if !name_byte(b[i]) {
            assert(s[i - from] == b@[i as int]);
            return false;
        }
        i = i + 1;
    }
    assert(s[0] == b@[from as int]);
    assert forall|k: int| 1 <= k < s.len() implies is_name_byte(#[trigger] s[k]) by {
        assert(s[k] == b@[from + k]);
    }
    true
}

/// Whether `name` is a bare ATML name (letter or `_`, then letters, digits, `_`, `-`).
pub fn is_bare_name(name: &str) -> (r: bool)
    ensures
        r == spec_is_bare_name(name.spec_bytes()),
{
    let b = name.as_bytes();
    let r = is_bare_name_range(b, 0, b.len());
    assert(b@.subrange(0, b@.len() as int) =~= b@);
    r
}

/// `pat` occurs in `s` at byte `i`.
pub open spec fn matches_at(s: Seq<u8>, i: int, pat: Seq<u8>) -> bool {
    &&& 0 <= i
    &&& i + pat.len() <= s.len()
    &&& s.subrange(i, i + pat.len()) =~= pat
}

/// `pat` occurs at `i` and lies entirely inside `[from, to)`.
pub open spec fn matches_within(s: Seq<u8>, from: int, to: int, i: int, pat: Seq<u8>) -> bool {
    from <= i && i + pat.len() <= to && matches_at(s, i, pat)
}

pub fn matches_at_exec(s: &[u8], i: usize, pat: &[u8]) -> (r: bool)
    ensures
        r == matches_at(s@, i as int, pat@),
{
    if i > s.len() || pat.len() > s.len() - i {
        return false;
    }
    let mut k: usize = 0;
    while k < pat.len()
        invariant
            i <= s.len(),
            i + pat.len() <= s.len(),
            pat.len() == pat@.len(),
            s.len() == s@.len(),
            i + pat@.len() <= s@.len(),
            k <= pat@.len(),
            forall|j: int| 0 <= j < k ==> s@[i + j] == pat@[j],
        decreases pat@.len() - k,
    {
        if s[i + k] != pat[k] {
            assert(s@.subrange(i as int, i + pat@.len())[k as int] != pat@[k as int]);
            return false;
        }
        k = k + 1;
    }
    assert(s@.subrange(i as int, i + pat@.len()) =~= pat@);
    true
}

/// The first occurrence of `pat` inside `s[from..to]`, as an offset into `s`.
pub fn find_in(s: &[u8], from: usize, to: usize, pat: &[u8]) -> (r: Option<usize>)
    requires
        from <= to <= s@.len(),
    ensures
        match r {
            Some(i) => matches_within(s@, from as int, to as int, i as int, pat@) && forall|j: int|
                from <= j < i ==> !#[trigger] matches_within(s@, from as int, to as int, j, pat@),
            None => forall|j: int| !#[trigger] matches_within(s@, from as int, to as int, j, pat@),
        },
{
    if pat.len() > to - from {
        return None;
    }
    let last = to - pat.len();
    let mut i = from;
    while i <= last
        invariant
            from <= i <= last + 1,
            last + pat@.len() == to,
            to <= s@.len(),
            forall|j: int| from <= j < i ==> !#[trigger] matches_within(s@, from as int, to as int, j, pat@),
        decreases last + 1 - i,
    {
        if matches_at_exec(s, i, pat) {
            return Some(i);
        }
        i = i + 1;
    }
    None
}

/// The first position in `s[from..to]` holding byte `c`.
pub fn find_byte(s: &[u8], from: usize, to: usize, c: u8) -> (r: Option<usize>)
    requires
        from <= to <= s@.len(),
    ensures
        match r {
            Some(i) => from <= i < to && s@[i as int] == c && forall|j: int|
                from <= j < i ==> s@[j] != c,
            None => forall|j: int| from <= j < to ==> s@[j] != c,
        },
{
    let mut i = from;
    while i < to
        invariant
            from <= i <= to <= s@.len(),
            forall|j: int| from <= j < i ==> s@[j] != c,
        decreases to - i,
    {
        if s[i] == c {
            return Some(i);
        }
        i = i + 1;
    }
    None
}

/// The last position in `s[from..to]` holding byte `c`.
pub fn rfind_byte(s: &[u8], from: usize, to: usize, c: u8) -> (r: Option<usize>)
    requires
        from <= to <= s@.len(),
    ensures
        match r {
            Some(i) => from <= i < to && s@[i as int] == c && forall|j: int| i < j < to ==> s@[j] != c,
            None => forall|j: int| from <= j < to ==> s@[j] != c,
        },
{
    let mut i = to;
    while i > from
        invariant
            from <= i <= to <= s@.len(),
            forall|j: int| i <= j < to ==> s@[j] != c,
        decreases i,
    {
        i = i - 1;
        if s[i] == c {
            return Some(i);
        }
    }
    None
}

/// Number of occurrences of byte `c` in `s[0..to]`.
pub open spec fn count_byte(s: Seq<u8>, to: int, c: u8) -> nat
    decreases to,
{
    if to <= 0 {
        0
    } else if s[to - 1] == c {
        count_byte(s, to - 1, c) + 1
    } else {
        count_byte(s, to - 1, c)
    }
}

pub fn count_byte_exec(s: &[u8], to: usize, c: u8) -> (n: usize)
    requires
        to <= s@.len(),
    ensures
        n == count_byte(s@, to as int, c),
        n <= to,
{
    let mut i: usize = 0;
    let mut n: usize = 0;
    while i < to
        invariant
            i <= to <= s@.len(),
            n == count_byte(s@, i as int, c),
            n <= i,
        decreases to - i,
    {
        if s[i] == c {
            n = n + 1;
        }
        i = i + 1;
    }
    n
}

// ---------------------------------------------------------------------------
// Character boundaries
// ---------------------------------------------------------------------------
/// In valid UTF-8, the end of a complete character is again a character boundary.
pub proof fn lemma_boundary_after_char(bytes: Seq<u8>, i: int)
    requires
        valid_utf8(bytes),
        is_char_boundary(bytes, i),
        0 <= i < bytes.len(),
    ensures
        valid_first_scalar(bytes.subrange(i, bytes.len() as int)),
        i + length_of_first_scalar(bytes.subrange(i, bytes.len() as int)) <= bytes.len(),
        is_char_boundary(
            bytes,
            i + length_of_first_scalar(bytes.subrange(i, bytes.len() as int)),
        ),
{
    let tail = bytes.subrange(i, bytes.len() as int);
    valid_utf8_split(bytes, i);
    assert(valid_utf8(tail));
    assert(tail.len() > 0);
    assert(valid_first_scalar(tail));
    let w = length_of_first_scalar(tail);
    assert(1 <= w <= 4);
    assert(w <= tail.len());
    let rest = pop_first_scalar(tail);
    assert(valid_utf8(rest));
    if i + w == bytes.len() {
    } else {
        assert(rest.len() > 0);
        assert(valid_first_scalar(rest));
        assert(rest[0] == bytes[i + w]);
        assert(!is_continuation_byte(bytes[i + w]));
        is_char_boundary_iff_not_is_continuation_byte(bytes, i + w);
    }
}

/// In valid UTF-8, every ASCII byte starts a character and is followed by a boundary.
pub proof fn lemma_ascii_boundaries(bytes: Seq<u8>, i: int)
    requires
        valid_utf8(bytes),
        0 <= i < bytes.len(),
        bytes[i] < 128,
    ensures
        is_char_boundary(bytes, i),
        is_char_boundary(bytes, i + 1),
{
    is_char_boundary_iff_not_is_continuation_byte(bytes, i);
    lemma_boundary_after_char(bytes, i);
    let tail = bytes.subrange(i, bytes.len() as int);
    assert(tail[0] == bytes[i]);
}

/// Boundaries of a suffix that starts at a boundary are the shifted boundaries of the whole.
pub proof fn lemma_boundary_in_suffix(bytes: Seq<u8>, a: int, b: int)
    requires
        valid_utf8(bytes),
        is_char_boundary(bytes, a),
        is_char_boundary(bytes, b),
        0 <= a <= b <= bytes.len(),
    ensures
        valid_utf8(bytes.subrange(a, bytes.len() as int)),
        is_char_boundary(bytes.subrange(a, bytes.len() as int), b - a),
{
    let tail = bytes.subrange(a, bytes.len() as int);
    valid_utf8_split(bytes, a);
    if b == bytes.len() {
        is_char_boundary_start_end_of_seq(tail);
    } else {
        is_char_boundary_iff_not_is_continuation_byte(bytes, b);
        is_char_boundary_iff_not_is_continuation_byte(tail, b - a);
        assert(tail[b - a] == bytes[b]);
    }
}

/// `s[start..end]`, for byte offsets on character boundaries.
pub fn substr(s: &str, start: usize, end: usize) -> (r: &str)
    requires
        start <= end <= s.spec_bytes().len(),
        is_char_boundary(s.spec_bytes(), start as int),
        is_char_boundary(s.spec_bytes(), end as int),
    ensures
        r.spec_bytes() == s.spec_bytes().subrange(start as int, end as int),
{
    let ghost bytes = s.spec_bytes();
    let (_, tail) = s.split_at(start);
    proof {
        lemma_boundary_in_suffix(bytes, start as int, end as int);
        assert(tail.spec_bytes() =~= bytes.subrange(start as int, bytes.len() as int));
    }
    let (mid, _) = tail.split_at(end - start);
    proof {
        assert(mid.spec_bytes() =~= bytes.subrange(start as int, end as int));
    }
    mid
}

/// `s.get(start..end)`: the slice when both offsets are in range and on character boundaries.
pub fn str_get(s: &str, start: usize, end: usize) -> (r: Option<&str>)
    ensures
        r is Some <==> (start <= end <= s.spec_bytes().len() && is_char_boundary(
            s.spec_bytes(),
            start as int,
        ) && is_char_boundary(s.spec_bytes(), end as int)),
        r matches Some(t) ==> t.spec_bytes() == s.spec_bytes().subrange(start as int, end as int),
{
    proof {
        lemma_view_from_bytes(s);
    }
    let n = s.as_bytes().len();
    if start <= end && end <= n && s.is_char_boundary(start) && s.is_char_boundary(end) {
        Some(substr(s, start, end))
    } else {
        proof {
            if end > n {
                assert(!is_char_boundary(s.spec_bytes(), end as int));
            }
            if start > n {
                assert(!is_char_boundary(s.spec_bytes(), start as int));
            }
        }
        None
    }
}

/// Encoding distributes over concatenation.
pub proof fn lemma_encode_concat(a: Seq<char>, b: Seq<char>)
    ensures
        encode_utf8(a + b) == encode_utf8(a) + encode_utf8(b),
    decreases a.len(),
{
    if a.len() == 0 {
        assert(a + b =~= b);
    } else {
        lemma_encode_concat(a.drop_first(), b);
        assert((a + b).drop_first() =~= a.drop_first() + b);
        assert((a + b)[0] == a[0]);
        assert(encode_utf8(a + b) =~= encode_utf8(a) + encode_utf8(b));
    }
}

/// Different texts have different encodings.
pub proof fn lemma_encode_injective(a: Seq<char>, b: Seq<char>)
    requires
        encode_utf8(a) == encode_utf8(b),
    ensures
        a == b,
{
    encode_utf8_decode_utf8(a);
    encode_utf8_decode_utf8(b);
}

/// `a == b` for text.
pub fn str_eq(a: &str, b: &str) -> (r: bool)
    ensures
        r == (a@ == b@),
{
    let x = a.as_bytes();
    let y = b.as_bytes();
    if x.len() != y.len() {
        return false;
    }
    let mut i: usize = 0;
    while i < x.len()
        invariant
            x@.len() == y@.len(),
            x@ == a.spec_bytes(),
            y@ == b.spec_bytes(),
            i <= x@.len(),
            forall|k: int| 0 <= k < i ==> x@[k] == y@[k],
        decreases x@.len() - i,
    {
        if x[i] != y[i] {
            return false;
        }
        i = i + 1;
    }
    proof {
        assert(x@ =~= y@);
        lemma_encode_injective(a@, b@);
    }
    true
}

/// ASCII letters in lower case, other bytes unchanged.
pub open spec fn ascii_lower(b: u8) -> u8 {
    if 65 <= b <= 90 {
        (b + 32) as u8
    } else {
        b
    }
}

/// `str::eq_ignore_ascii_case` on bytes.
pub open spec fn eq_ignore_ascii_case(a: Seq<u8>, b: Seq<u8>) -> bool {
    a.len() == b.len() && forall|i: int| 0 <= i < a.len() ==> ascii_lower(#[trigger] a[i]) == ascii_lower(b[i])
}

pub fn eq_ignore_ascii_case_exec(a: &[u8], b: &[u8]) -> (r: bool)
    ensures
        r == eq_ignore_ascii_case(a@, b@),
{
    if a.len() != b.len() {
        return false;
    }
    let mut i: usize = 0;
    while i < a.len()
        invariant
            a@.len() == b@.len(),
            i <= a@.len(),
            forall|k: int| 0 <= k < i ==> ascii_lower(#[trigger] a@[k]) == ascii_lower(b@[k]),
        decreases a@.len() - i,
    {
        let x = if 65 <= a[i] && a[i] <= 90 { a[i] + 32 } else { a[i] };
        let y = if 65 <= b[i] && b[i] <= 90 { b[i] + 32 } else { b[i] };
        if x != y {
            return false;
        }
        i = i + 1;
    }
    true
}

/// The characters of `s` decoded from its bytes.
pub proof fn lemma_view_from_bytes(s: &str)
    ensures
        decode_utf8(s.spec_bytes()) == s@,
        valid_utf8(s.spec_bytes()),
{
    encode_utf8_decode_utf8(s@);
}

/// Decoding never yields more characters than there are bytes.
pub proof fn lemma_decode_len(b: Seq<u8>)
    requires
        valid_utf8(b),
    ensures
        decode_utf8(b).len() <= b.len(),
    decreases b.len(),
{
    if b.len() > 0 {
        let rest = pop_first_scalar(b);
        assert(1 <= length_of_first_scalar(b) <= b.len());
        lemma_decode_len(rest);
    }
}

/// Owned copy of `s[start..end]`.
pub fn owned_substr(s: &str, start: usize, end: usize) -> (r: String)
    requires
        start <= end <= s.spec_bytes().len(),
        is_char_boundary(s.spec_bytes(), start as int),
        is_char_boundary(s.spec_bytes(), end as int),
    ensures
        bytes_of(r) == s.spec_bytes().subrange(start as int, end as int),
{
    let t = substr(s, start, end);
    let r = t.to_owned();
    proof {
        assert(r@ == t@);
    }
    r
}

// ---------------------------------------------------------------------------
// Unicode whitespace (`char::is_whitespace`, the White_Space property)
// ---------------------------------------------------------------------------
/// Byte length of the White_Space character whose UTF-8 encoding starts at `i`, or 0.
///
/// White_Space is U+0009..U+000D, U+0020, U+0085, U+00A0, U+1680, U+2000..U+200A,
/// U+2028, U+2029, U+202F, U+205F and U+3000; the patterns below are their encodings.
pub open spec fn ws_len_at(s: Seq<u8>, i: int) -> int {
    if 0 <= i < s.len() && ((9 <= s[i] <= 13) || s[i] == 32) {
        1
    } else if 0 <= i && i + 2 <= s.len() && s[i] == 0xc2 && (s[i + 1] == 0x85 || s[i + 1] == 0xa0) {
        2
    } else if 0 <= i && i + 3 <= s.len() && ((s[i] == 0xe1 && s[i + 1] == 0x9a && s[i + 2]
        == 0x80) || (s[i] == 0xe2 && s[i + 1] == 0x80 && (0x80 <= s[i + 2] <= 0x8a || s[i + 2]
        == 0xa8 || s[i + 2] == 0xa9 || s[i + 2] == 0xaf)) || (s[i] == 0xe2 && s[i + 1] == 0x81
        && s[i + 2] == 0x9f) || (s[i] == 0xe3 && s[i + 1] == 0x80 && s[i + 2] == 0x80)) {
        3
    } else {
        0
    }
}

/// Byte length of the White_Space character whose UTF-8 encoding ends at `j`, or 0.
pub open spec fn ws_len_before(s: Seq<u8>, j: int) -> int {
    if j >= 1 && ws_len_at(s, j - 1) == 1 {
        1
    } else if j >= 2 && ws_len_at(s, j - 2) == 2 {
        2
    } else if j >= 3 && ws_len_at(s, j - 3) == 3 {
        3
    } else {
        0
    }
}

pub fn ws_len_at_exec(s: &[u8], i: usize) -> (n: usize)
    ensures
        n == ws_len_at(s@, i as int),
{
    let len = s.len();
    if i < len && ((9 <= s[i] && s[i] <= 13) || s[i] == 32) {
        1
    } else if i < len && len - i >= 2 && s[i] == 0xc2 && (s[i + 1] == 0x85 || s[i + 1] == 0xa0) {
        2
    } else if i < len && len - i >= 3 && ((s[i] == 0xe1 && s[i + 1] == 0x9a && s[i + 2] == 0x80)
        || (s[i] == 0xe2 && s[i + 1] == 0x80 && ((0x80 <= s[i + 2] && s[i + 2] <= 0x8a) || s[i
        + 2] == 0xa8 || s[i + 2] == 0xa9 || s[i + 2] == 0xaf)) || (s[i] == 0xe2 && s[i + 1]
        == 0x81 && s[i + 2] == 0x9f) || (s[i] == 0xe3 && s[i + 1] == 0x80 && s[i + 2] == 0x80)) {
        3
    } else {
        0
    }
}

pub fn ws_len_before_exec(s: &[u8], j: usize) -> (n: usize)
    requires
        j <= s@.len(),
    ensures
        n == ws_len_before(s@, j as int),
{
    if j >= 1 && ws_len_at_exec(s, j - 1) == 1 {
        1
    } else if j >= 2 && ws_len_at_exec(s, j - 2) == 2 {
        2
    } else if j >= 3 && ws_len_at_exec(s, j - 3) == 3 {
        3
    } else {
        0
    }
}

/// Start of `s[from..to]` after `trim_start`: leading White_Space characters skipped.
pub open spec fn trim_start_pos(s: Seq<u8>, from: int, to: int) -> int
    decreases to - from,
{
    if from < to && ws_len_at(s, from) > 0 && from + ws_len_at(s, from) <= to {
        trim_start_pos(s, from + ws_len_at(s, from), to)
    } else {
        from
    }
}

/// End of `s[from..to]` after `trim_end`: trailing White_Space characters dropped.
pub open spec fn trim_end_pos(s: Seq<u8>, from: int, to: int) -> int
    decreases to - from,
{
    if from < to && ws_len_before(s, to) > 0 && to - ws_len_before(s, to) >= from {
        trim_end_pos(s, from, to - ws_len_before(s, to))
    } else {
        to
    }
}

pub proof fn lemma_trim_start_bounds(s: Seq<u8>, from: int, to: int)
    requires
        from <= to,
    ensures
        from <= trim_start_pos(s, from, to) <= to,
    decreases to - from,
{
    if from < to && ws_len_at(s, from) > 0 && from + ws_len_at(s, from) <= to {
        lemma_trim_start_bounds(s, from + ws_len_at(s, from), to);
    }
}

pub proof fn lemma_trim_end_bounds(s: Seq<u8>, from: int, to: int)
    requires
        from <= to,
    ensures
        from <= trim_end_pos(s, from, to) <= to,
    decreases to - from,
{
    if from < to && ws_len_before(s, to) > 0 && to - ws_len_before(s, to) >= from {
        lemma_trim_end_bounds(s, from, to - ws_len_before(s, to));
    }
}

/// A whitespace match starting at a boundary spans a whole character.
pub proof fn lemma_ws_at_boundary(s: Seq<u8>, i: int)
    requires
        valid_utf8(s),
        is_char_boundary(s, i),
        ws_len_at(s, i) > 0,
    ensures
        is_char_boundary(s, i + ws_len_at(s, i)),
{
    lemma_boundary_after_char(s, i);
    let tail = s.subrange(i, s.len() as int);
    assert(tail[0] == s[i]);
}

/// A whitespace match ending at a boundary starts at a boundary.
pub proof fn lemma_ws_before_boundary(s: Seq<u8>, j: int)
    requires
        valid_utf8(s),
        is_char_boundary(s, j),
        ws_len_before(s, j) > 0,
    ensures
        is_char_boundary(s, j - ws_len_before(s, j)),
{
    let k = j - ws_len_before(s, j);
    assert(s[k] < 0x80 || s[k] == 0xc2 || s[k] == 0xe1 || s[k] == 0xe2 || s[k] == 0xe3);
    is_char_boundary_iff_not_is_continuation_byte(s, k);
}

pub proof fn lemma_trim_start_boundary(s: Seq<u8>, from: int, to: int)
    requires
        valid_utf8(s),
        is_char_boundary(s, from),
        from <= to,
    ensures
        is_char_boundary(s, trim_start_pos(s, from, to)),
    decreases to - from,
{
    if from < to && ws_len_at(s, from) > 0 && from + ws_len_at(s, from) <= to {
        lemma_ws_at_boundary(s, from);
        lemma_trim_start_boundary(s, from + ws_len_at(s, from), to);
    }
}

pub proof fn lemma_trim_end_boundary(s: Seq<u8>, from: int, to: int)
    requires
        valid_utf8(s),
        is_char_boundary(s, to),
        from <= to,
    ensures
        is_char_boundary(s, trim_end_pos(s, from, to)),
    decreases to - from,
{
    if from < to && ws_len_before(s, to) > 0 && to - ws_len_before(s, to) >= from {
        lemma_ws_before_boundary(s, to);
        lemma_trim_end_boundary(s, from, to - ws_len_before(s, to));
    }
}

/// `trim_start` of `s[from..to]`, as the new start offset.
pub fn trim_start_from(s: &[u8], from: usize, to: usize) -> (r: usize)
    requires
        from <= to <= s@.len(),
    ensures
        r == trim_start_pos(s@, from as int, to as int),
        from <= r <= to,
{
    let mut i = from;
    let mut done = false;
    while !done && i < to
        invariant
            from <= i <= to <= s@.len(),
            trim_start_pos(s@, i as int, to as int) == trim_start_pos(s@, from as int, to as int),
            done ==> trim_start_pos(s@, i as int, to as int) == i,
        decreases (to - i) * 2 + if done { 0int } else { 1int },
    {
        let w = ws_len_at_exec(s, i);
        if w == 0 || w > to - i {
            done = true;
        } else {
            i = i + w;
        }
    }
    proof {
        lemma_trim_start_bounds(s@, from as int, to as int);
    }
    i
}

/// `trim_end` of `s[from..to]`, as the new end offset.
pub fn trim_end_to(s: &[u8], from: usize, to: usize) -> (r: usize)
    requires
        from <= to <= s@.len(),
    ensures
        r == trim_end_pos(s@, from as int, to as int),
        from <= r <= to,
{
    let mut j = to;
    let mut done = false;
    while !done && j > from
        invariant
            from <= j <= to <= s@.len(),
            trim_end_pos(s@, from as int, j as int) == trim_end_pos(s@, from as int, to as int),
            done ==> trim_end_pos(s@, from as int, j as int) == j,
        decreases j * 2 + if done { 0int } else { 1int },
    {
        let w = ws_len_before_exec(s, j);
        if w == 0 || w > j - from {
            done = true;
        } else {
            j = j - w;
        }
    }
    proof {
        lemma_trim_end_bounds(s@, from as int, to as int);
    }
    j
}

/// Byte-lexicographic order, which is the order of `str`'s `Ord`.
pub open spec fn bytes_lt(a: Seq<u8>, b: Seq<u8>) -> bool
    decreases a.len(),
{
    if a.len() == 0 {
        b.len() > 0
    } else if b.len() == 0 {
        false
    } else if a[0] != b[0] {
        a[0] < b[0]
    } else {
        bytes_lt(a.drop_first(), b.drop_first())
    }
}

pub fn bytes_less(a: &[u8], b: &[u8]) -> (r: bool)
    ensures
        r == bytes_lt(a@, b@),
{
    let mut i: usize = 0;
    assert(a@.subrange(0, a@.len() as int) =~= a@);
    assert(b@.subrange(0, b@.len() as int) =~= b@);
    while i < a.len() && i < b.len()
        invariant
            i <= a@.len(),
            i <= b@.len(),
            forall|k: int| 0 <= k < i ==> a@[k] == b@[k],
            bytes_lt(a@, b@) == bytes_lt(a@.subrange(i as int, a@.len() as int), b@.subrange(i as int, b@.len() as int)),
        decreases a@.len() - i,
    {
        let ghost sa = a@.subrange(i as int, a@.len() as int);
        let ghost sb = b@.subrange(i as int, b@.len() as int);
        if a[i] != b[i] {
            assert(sa[0] == a@[i as int] && sb[0] == b@[i as int]);
            return a[i] < b[i];
        }
        assert(sa.drop_first() =~= a@.subrange(i + 1, a@.len() as int));
        assert(sb.drop_first() =~= b@.subrange(i + 1, b@.len() as int));
        i = i + 1;
    }
    i == a.len() && i < b.len()
}

} // verus!

verus! {

/// `std::str::from_utf8(b).ok()`: the bytes as text when they are valid UTF-8.
#[verifier::external_body]
fn utf8_str(b: &[u8]) -> (r: Option<&str>)
    ensures
        r is Some <==> valid_utf8(b@),
        r matches Some(s) ==> s.spec_bytes() == b@,
{
    std::str::from_utf8(b).ok()
}

/// A `String` holding exactly the given ASCII bytes.
pub fn ascii_string(b: &[u8]) -> (r: String)
    requires
        forall|i: int| 0 <= i < b@.len() ==> b@[i] < 128,
    ensures
        bytes_of(r) == b@,
{
    proof {
        lemma_ascii_valid(b@);
    }
    match utf8_str(b) {
        Some(s) => {
            let r = s.to_owned();
            assert(r@ == s@);
            r
        },
        None => String::new(),
    }
}

/// A sequence of ASCII bytes is valid UTF-8.
pub proof fn lemma_ascii_valid(b: Seq<u8>)
    requires
        forall|i: int| 0 <= i < b.len() ==> b[i] < 128,
    ensures
        valid_utf8(b),
    decreases b.len(),
{
    if b.len() > 0 {
        let rest = b.subrange(1, b.len() as int);
        assert forall|i: int| 0 <= i < rest.len() implies rest[i] < 128 by {
            assert(rest[i] == b[i + 1]);
        }
        lemma_ascii_valid(rest);
        assert(pop_first_scalar(b) =~= rest);
    }
}

/// Decimal digits of `n`, most significant first, without leading zeros.
pub open spec fn decimal_bytes(n: nat) -> Seq<u8>
    decreases n,
{
    if n < 10 {
        seq![(48 + n) as u8]
    } else {
        decimal_bytes(n / 10).push((48 + n % 10) as u8)
    }
}

pub proof fn lemma_decimal_bytes_ascii(n: nat)
    ensures
        forall|i: int| 0 <= i < decimal_bytes(n).len() ==> is_ascii_digit(#[trigger] decimal_bytes(n)[i]),
        decimal_bytes(n).len() >= 1,
    decreases n,
{
    if n >= 10 {
        lemma_decimal_bytes_ascii(n / 10);
    }
}

/// The decimal digits of `n`.
pub fn decimal_digits(n: u64) -> (r: Vec<u8>)
    ensures
        r@ == decimal_bytes(n as nat),
    decreases n,
{
    if n < 10 {
        let mut v: Vec<u8> = Vec::new();
        v.push((48 + n) as u8);
        v
    } else {
        let mut v = decimal_digits(n / 10);
        v.push((48 + n % 10) as u8);
        v
    }
}

/// `n.to_string()` for an unsigned number.
pub fn decimal_string(n: u64) -> (r: String)
    ensures
        bytes_of(r) == decimal_bytes(n as nat),
{
    let v = decimal_digits(n);
    proof {
        lemma_decimal_bytes_ascii(n as nat);
    }
    ascii_string(v.as_slice())
}

} // verus!
