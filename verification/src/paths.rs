//! Key paths: sequences of decoded key segments, compared by their text.
use vstd::prelude::*;

verus! {

/// The text of each segment of a key path.
pub open spec fn pv(p: Seq<String>) -> Seq<Seq<char>> {
    p.map_values(|s: String| s@)
}

/// `segments` joined with `sep` between them.
pub open spec fn join_spec(segments: Seq<Seq<char>>, sep: Seq<char>) -> Seq<char>
    decreases segments.len(),
{
    if segments.len() == 0 {
        Seq::empty()
    } else if segments.len() == 1 {
        segments[0]
    } else {
        join_spec(segments.drop_last(), sep) + sep + segments.last()
    }
}

pub fn path_eq(a: &[String], b: &[String]) -> (r: bool)
    ensures
        r == (pv(a@) == pv(b@)),
{
    if a.len() != b.len() {
        assert(pv(a@).len() != pv(b@).len());
        return false;
    }
    let mut i: usize = 0;
    while i < a.len()
        invariant
            a@.len() == b@.len(),
            i <= a@.len(),
            forall|k: int| 0 <= k < i ==> a@[k]@ == b@[k]@,
        decreases a@.len() - i,
    {
        if a[i] != b[i] {
            assert(pv(a@)[i as int] != pv(b@)[i as int]);
            return false;
        }
        i = i + 1;
    }
    assert(pv(a@) =~= pv(b@));
    true
}

/// `prefix` is a (not necessarily proper) prefix of `path`.
pub fn path_starts_with(path: &[String], prefix: &[String]) -> (r: bool)
    ensures
        r == pv(prefix@).is_prefix_of(pv(path@)),
{
    if prefix.len() > path.len() {
        return false;
    }
    let mut i: usize = 0;
    while i < prefix.len()
        invariant
            prefix@.len() <= path@.len(),
            i <= prefix@.len(),
            forall|k: int| 0 <= k < i ==> prefix@[k]@ == path@[k]@,
        decreases prefix@.len() - i,
    {
        if prefix[i] != path[i] {
            assert(pv(prefix@)[i as int] != pv(path@)[i as int]);
            return false;
        }
        i = i + 1;
    }
    assert(pv(prefix@) =~= pv(path@).subrange(0, prefix@.len() as int));
    true
}

/// A copy of a key path.
pub fn clone_path(p: &[String]) -> (r: Vec<String>)
    ensures
        r@ == p@,
{
    let mut r: Vec<String> = Vec::new();
    let mut i: usize = 0;
    while i < p.len()
        invariant
            i <= p@.len(),
            r@ == p@.subrange(0, i as int),
        decreases p@.len() - i,
    {
        r.push(p[i].clone());
        i = i + 1;
        assert(r@ =~= p@.subrange(0, i as int));
    }
    assert(p@.subrange(0, p@.len() as int) =~= p@);
    r
}

/// The first `n` segments of a key path.
pub fn path_prefix(p: &[String], n: usize) -> (r: Vec<String>)
    requires
        n <= p@.len(),
    ensures
        r@ == p@.subrange(0, n as int),
{
    let mut r: Vec<String> = Vec::new();
    let mut i: usize = 0;
    while i < n
        invariant
            n <= p@.len(),
            i <= n,
            r@ == p@.subrange(0, i as int),
        decreases n - i,
    {
        r.push(p[i].clone());
        i = i + 1;
        assert(r@ =~= p@.subrange(0, i as int));
    }
    r
}

/// The segments of a key path after the first `n`.
pub fn path_suffix(p: &[String], n: usize) -> (r: Vec<String>)
    requires
        n <= p@.len(),
    ensures
        r@ == p@.skip(n as int),
        pv(r@) == pv(p@).skip(n as int),
{
    let mut r: Vec<String> = Vec::new();
    let mut i: usize = n;
    while i < p.len()
        invariant
            n <= i <= p@.len(),
            r@ == p@.subrange(n as int, i as int),
        decreases p@.len() - i,
    {
        r.push(p[i].clone());
        i = i + 1;
        assert(r@ =~= p@.subrange(n as int, i as int));
    }
    assert(r@ =~= p@.skip(n as int));
    assert(pv(r@) =~= pv(p@).skip(n as int));
    r
}

/// `segments` joined by `sep`, like `[String]::join`.
pub fn join(segments: &[String], sep: &str) -> (r: String)
    ensures
        r@ == join_spec(pv(segments@), sep@),
{
    let mut r = String::new();
    let mut i: usize = 0;
    while i < segments.len()
        invariant
            i <= segments@.len(),
            r@ == join_spec(pv(segments@.subrange(0, i as int)), sep@),
        decreases segments@.len() - i,
    {
        let ghost before = r@;
        if i > 0 {
            r.append(sep);
        }
        r.append(segments[i].as_str());
        proof {
            let s = pv(segments@.subrange(0, i + 1));
            assert(s.drop_last() =~= pv(segments@.subrange(0, i as int)));
            assert(s.last() == segments@[i as int]@);
            if i == 0 {
                assert(r@ =~= s[0]);
            }
        }
        i = i + 1;
    }
    assert(segments@.subrange(0, segments@.len() as int) =~= segments@);
    r
}

/// Whether a list of paths contains `p`.
pub fn paths_contain(list: &Vec<Vec<String>>, p: &[String]) -> (r: bool)
    ensures
        r == exists|i: int| 0 <= i < list@.len() && #[trigger] pv(list@[i]@) == pv(p@),
{
    let mut i: usize = 0;
    while i < list.len()
        invariant
            i <= list@.len(),
            forall|k: int| 0 <= k < i ==> #[trigger] pv(list@[k]@) != pv(p@),
        decreases list@.len() - i,
    {
        if path_eq(list[i].as_slice(), p) {
            return true;
        }
        i = i + 1;
    }
    false
}

} // verus!
