//! Stable insertion sorts for the result lists.
use vstd::prelude::*;
use vstd::string::StringSliceAdditionalSpecFns;

use crate::text::{bytes_less, bytes_lt};
use crate::Diagnostic;

verus! {

broadcast use vstd::seq_lib::group_to_multiset_ensures;

/// Diagnostic order: by start offset, then by code.
pub open spec fn diagnostic_lt(a: Diagnostic, b: Diagnostic) -> bool {
    a.range.start < b.range.start || (a.range.start == b.range.start && bytes_lt(
        a.code.spec_bytes(),
        b.code.spec_bytes(),
    ))
}

/// The sort key of a diagnostic: its start offset and its code.
pub open spec fn diagnostic_key(d: Diagnostic) -> (usize, Seq<char>) {
    (d.range.start, d.code@)
}

/// Holds of the diagnostics whose key is `k`.
pub open spec fn with_key(k: (usize, Seq<char>)) -> spec_fn(Diagnostic) -> bool {
    |d: Diagnostic| diagnostic_key(d) == k
}

/// No element is ordered before an earlier one.
pub open spec fn sorted_diagnostics(s: Seq<Diagnostic>) -> bool {
    forall|i: int, j: int| 0 <= i < j < s.len() ==> !diagnostic_lt(s[j], s[i])
}

pub proof fn lemma_bytes_lt_trans(a: Seq<u8>, b: Seq<u8>, c: Seq<u8>)
    requires
        bytes_lt(a, b),
        bytes_lt(b, c),
    ensures
        bytes_lt(a, c),
    decreases a.len(),
{
    if a.len() > 0 && b.len() > 0 && c.len() > 0 && a[0] == b[0] && b[0] == c[0] {
        lemma_bytes_lt_trans(a.drop_first(), b.drop_first(), c.drop_first());
    }
}

pub proof fn lemma_bytes_lt_total(a: Seq<u8>, b: Seq<u8>)
    ensures
        bytes_lt(a, b) || bytes_lt(b, a) || a == b,
    decreases a.len(),
{
    if a.len() > 0 && b.len() > 0 && a[0] == b[0] {
        lemma_bytes_lt_total(a.drop_first(), b.drop_first());
        if a.drop_first() == b.drop_first() {
            assert(a =~= seq![a[0]] + a.drop_first());
            assert(b =~= seq![b[0]] + b.drop_first());
        }
    } else if a.len() == 0 && b.len() == 0 {
        assert(a =~= b);
    }
}

pub proof fn lemma_bytes_lt_irrefl(a: Seq<u8>)
    ensures
        !bytes_lt(a, a),
    decreases a.len(),
{
    if a.len() > 0 {
        lemma_bytes_lt_irrefl(a.drop_first());
    }
}

fn diagnostic_less(a: &Diagnostic, b: &Diagnostic) -> (r: bool)
    ensures
        r == diagnostic_lt(*a, *b),
{
    a.range.start < b.range.start || (a.range.start == b.range.start && bytes_less(
        a.code.as_bytes(),
        b.code.as_bytes(),
    ))
}

/// `a < b`, and `c` is not below `b`: then `a < c`.
proof fn lemma_diag_lt_le(a: Diagnostic, b: Diagnostic, c: Diagnostic)
    requires
        diagnostic_lt(a, b),
        !diagnostic_lt(c, b),
    ensures
        diagnostic_lt(a, c),
{
    lemma_bytes_lt_total(b.code.spec_bytes(), c.code.spec_bytes());
    if a.range.start == b.range.start && b.range.start == c.range.start && bytes_lt(a.code.spec_bytes(), b.code.spec_bytes())
        && bytes_lt(b.code.spec_bytes(), c.code.spec_bytes()) {
        lemma_bytes_lt_trans(a.code.spec_bytes(), b.code.spec_bytes(), c.code.spec_bytes());
    }
}

proof fn lemma_diag_lt_asym(a: Diagnostic, b: Diagnostic)
    requires
        diagnostic_lt(a, b),
    ensures
        !diagnostic_lt(b, a),
{
    if a.range.start == b.range.start && bytes_lt(a.code.spec_bytes(), b.code.spec_bytes()) && bytes_lt(
        b.code.spec_bytes(),
        a.code.spec_bytes(),
    ) {
        lemma_bytes_lt_trans(a.code.spec_bytes(), b.code.spec_bytes(), a.code.spec_bytes());
        lemma_bytes_lt_irrefl(a.code.spec_bytes());
    }
}

/// Mapping preserves equality of multisets.
pub proof fn lemma_map_multiset<A, B>(a: Seq<A>, b: Seq<A>, f: spec_fn(A) -> B)
    requires
        a.to_multiset() =~= b.to_multiset(),
    ensures
        a.map_values(f).to_multiset() =~= b.map_values(f).to_multiset(),
    decreases a.len(),
{
    assert(a.len() == b.len()) by {
        assert(a.to_multiset().len() == b.to_multiset().len());
    }
    if a.len() > 0 {
        let x = a.last();
        let a1 = a.drop_last();
        assert(a =~= a1.push(x));
        assert(a.to_multiset().count(x) > 0);
        assert(b.contains(x));
        let j = choose|j: int| 0 <= j < b.len() && b[j] == x;
        let b1 = b.remove(j);
        assert(b1.to_multiset() =~= b.to_multiset().remove(x));
        assert(a1.to_multiset() =~= a.to_multiset().remove(x));
        lemma_map_multiset(a1, b1, f);
        assert(a.map_values(f) =~= a1.map_values(f).push(f(x)));
        assert(b.map_values(f).remove(j) =~= b1.map_values(f));
        assert(b.map_values(f)[j] == f(x));
        assert(b.map_values(f).to_multiset() =~= b1.map_values(f).to_multiset().insert(f(x)));
    }
}

/// Diagnostics in order have different keys.
proof fn lemma_lt_key(a: Diagnostic, b: Diagnostic)
    requires
        diagnostic_lt(a, b),
    ensures
        diagnostic_key(a) != diagnostic_key(b),
{
    if diagnostic_key(a) == diagnostic_key(b) {
        lemma_bytes_lt_irrefl(a.code.spec_bytes());
    }
}

/// Filtering by a key that no element has leaves nothing.
proof fn lemma_filter_none(s: Seq<Diagnostic>, k: (usize, Seq<char>))
    requires
        forall|i: int| 0 <= i < s.len() ==> diagnostic_key(#[trigger] s[i]) != k,
    ensures
        s.filter(with_key(k)) == Seq::<Diagnostic>::empty(),
    decreases s.len(),
{
    reveal_with_fuel(Seq::filter, 1);
    if s.len() > 0 {
        lemma_filter_none(s.drop_last(), k);
    }
}

/// Sorts diagnostics by (start, code); diagnostics with equal keys keep their order.
pub fn sort_diagnostics(v: Vec<Diagnostic>) -> (r: Vec<Diagnostic>)
    ensures
        r@.to_multiset() == v@.to_multiset(),
        sorted_diagnostics(r@),
        forall|k: (usize, Seq<char>)| #[trigger] r@.filter(with_key(k)) == v@.filter(with_key(k)),
{
    let ghost orig = v@;
    let mut rest = v;
    let mut out: Vec<Diagnostic> = Vec::new();
    proof {
        assert forall|k: (usize, Seq<char>)| rest@.filter(with_key(k)) + out@.filter(with_key(k)) == #[trigger] orig.filter(with_key(k)) by {
            reveal_with_fuel(Seq::filter, 1);
            assert(rest@.filter(with_key(k)) + out@.filter(with_key(k)) =~= rest@.filter(with_key(k)));
        }
    }
    while rest.len() > 0
        invariant
            out@.to_multiset().add(rest@.to_multiset()) == orig.to_multiset(),
            sorted_diagnostics(out@),
            forall|k: (usize, Seq<char>)| rest@.filter(with_key(k)) + out@.filter(with_key(k)) == #[trigger] orig.filter(with_key(k)),
        decreases rest@.len(),
    {
        let ghost rest0 = rest@;
        let x = rest.pop().unwrap();
        proof {
            assert(rest0 =~= rest@.push(x));
        }
        let mut pos: usize = 0;
        while pos < out.len() && diagnostic_less(&out[pos], &x)
            invariant
                pos <= out@.len(),
                forall|k: int| 0 <= k < pos ==> diagnostic_lt(#[trigger] out@[k], x),
            decreases out@.len() - pos,
        {
            pos = pos + 1;
        }
        let ghost out0 = out@;
        out.insert(pos, x);
        proof {
            assert(out@ =~= out0.insert(pos as int, x));
            assert(out@.remove(pos as int) =~= out0);
            assert(out@.to_multiset() =~= out0.to_multiset().insert(x));
            assert forall|k: (usize, Seq<char>)| rest@.filter(with_key(k)) + out@.filter(with_key(k)) == #[trigger] orig.filter(with_key(k)) by {
                let f = with_key(k);
                let lo = out0.subrange(0, pos as int);
                let hi = out0.subrange(pos as int, out0.len() as int);
                assert(out0 =~= lo + hi);
                assert(out@ =~= lo + (seq![x] + hi));
                Seq::filter_distributes_over_add(lo, hi, f);
                Seq::filter_distributes_over_add(lo, seq![x] + hi, f);
                hi.lemma_filter_prepend(x, f);
                rest@.lemma_filter_push(x, f);
                assert(rest0.filter(f) + out0.filter(f) == orig.filter(f));
                if f(x) {
                    assert forall|i: int| 0 <= i < lo.len() implies diagnostic_key(#[trigger] lo[i]) != k by {
                        lemma_lt_key(lo[i], x);
                    }
                    lemma_filter_none(lo, k);
                    assert(rest@.filter(f) + out@.filter(f) =~= rest0.filter(f) + out0.filter(f));
                } else {
                    assert(rest@.filter(f) + out@.filter(f) =~= rest0.filter(f) + out0.filter(f));
                }
            }
            assert forall|i: int, j: int| 0 <= i < j < out@.len() implies !diagnostic_lt(out@[j], out@[i]) by {
                if j == pos {
                    assert(out@[i] == out0[i]);
                    assert(diagnostic_lt(out0[i], x));
                    lemma_diag_lt_asym(out0[i], x);
                } else if i == pos {
                    assert(out@[j] == out0[j - 1]);
                    if pos < out0.len() {
                        assert(!diagnostic_lt(out0[pos as int], x));
                        if diagnostic_lt(out0[j - 1], x) {
                            if j - 1 > pos {
                                assert(!diagnostic_lt(out0[j - 1], out0[pos as int]));
                                lemma_diag_lt_le(out0[j - 1], x, out0[pos as int]);
                            }
                        }
                    }
                } else {
                    let i0 = if i < pos { i } else { i - 1 };
                    let j0 = if j < pos { j } else { j - 1 };
                    assert(out@[i] == out0[i0] && out@[j] == out0[j0]);
                }
            }
        }
    }
    proof {
        assert forall|k: (usize, Seq<char>)| #[trigger] out@.filter(with_key(k)) == orig.filter(with_key(k)) by {
            reveal_with_fuel(Seq::filter, 1);
            assert(rest@.filter(with_key(k)) + out@.filter(with_key(k)) =~= out@.filter(with_key(k)));
        }
    }
    out
}

} // verus!
