//! Cycle detection over path-reference and inheritance edges.
use vstd::prelude::*;

use crate::paths::{clone_path, path_eq, pv};
use crate::semantic::{CycleKind, SemanticCycle};

verus! {

/// `a -> b` is one of the edges.
pub open spec fn is_edge(edges: Seq<(Vec<String>, Vec<String>)>, a: Seq<Seq<char>>, b: Seq<Seq<char>>) -> bool {
    exists|i: int| 0 <= i < edges.len() && pv(#[trigger] edges[i].0@) == a && pv(edges[i].1@) == b
}

/// The key paths of a cycle.
pub open spec fn cycle_paths(c: SemanticCycle) -> Seq<Seq<Seq<char>>> {
    c.paths@.map_values(|p: Vec<String>| pv(p@))
}

/// `paths` passes each path once before returning to where it started.
pub open spec fn is_simple(paths: Seq<Seq<Seq<char>>>) -> bool {
    forall|k: int, l: int| 0 <= k < l < paths.len() - 1 ==> paths[k] != paths[l]
}

/// `paths` starts and ends at the same path and follows edges throughout.
pub open spec fn is_closed_walk(edges: Seq<(Vec<String>, Vec<String>)>, paths: Seq<Seq<Seq<char>>>) -> bool {
    &&& paths.len() >= 2
    &&& paths[0] == paths.last()
    &&& forall|k: int| 0 <= k < paths.len() - 1 ==> is_edge(edges, #[trigger] paths[k], paths[k + 1])
}

/// The graph on node numbers: `adj[a]` lists the successors of `a`.
spec fn adj_edge(adj: Seq<Vec<usize>>, a: int, b: int) -> bool {
    0 <= a < adj.len() && exists|j: int| 0 <= j < adj[a]@.len() && adj[a]@[j] == b
}

/// The numbered graph faithfully represents `edges`.
spec fn graph_ok(edges: Seq<(Vec<String>, Vec<String>)>, nodes: Seq<Vec<String>>, adj: Seq<Vec<usize>>) -> bool {
    &&& adj.len() == nodes.len()
    &&& forall|a: int, j: int|
        0 <= a < adj.len() && 0 <= j < adj[a]@.len() ==> #[trigger] adj[a]@[j] < nodes.len() && is_edge(
            edges,
            pv(nodes[a]@),
            pv(nodes[adj[a]@[j] as int]@),
        )
}

/// `s` follows the numbered graph from node to node.
spec fn walk(adj: Seq<Vec<usize>>, s: Seq<usize>) -> bool {
    forall|k: int| 0 <= k < s.len() - 1 ==> #[trigger] adj_edge(adj, s[k] as int, s[k + 1] as int)
}

spec fn count_false(v: Seq<bool>) -> nat
    decreases v.len(),
{
    if v.len() == 0 {
        0
    } else {
        count_false(v.drop_last()) + if v.last() {
            0nat
        } else {
            1nat
        }
    }
}

proof fn lemma_count_false_set(v: Seq<bool>, i: int)
    requires
        0 <= i < v.len(),
        !v[i],
    ensures
        count_false(v.update(i, true)) + 1 == count_false(v),
    decreases v.len(),
{
    if i < v.len() - 1 {
        assert(v.update(i, true).drop_last() =~= v.drop_last().update(i, true));
        lemma_count_false_set(v.drop_last(), i);
    } else {
        assert(v.update(i, true).drop_last() =~= v.drop_last());
    }
}

/// The DFS state: the active flags mark exactly the stack, which is a walk.
spec fn dfs_ok(n: nat, adj: Seq<Vec<usize>>, active: Seq<bool>, stack: Seq<usize>) -> bool {
    &&& active.len() == n
    &&& forall|k: int| 0 <= k < stack.len() ==> (#[trigger] stack[k]) < n && active[stack[k] as int]
    &&& forall|x: int| 0 <= x < n && #[trigger] active[x] ==> stack.contains(x as usize)
    &&& forall|k: int, l: int| 0 <= k < l < stack.len() ==> stack[k] != stack[l]
    &&& walk(adj, stack)
}

/// Node `x` lies on one of the recorded cycles.
#[verifier::opaque]
spec fn covered(cycles: Seq<Vec<usize>>, x: int) -> bool {
    exists|c: int, i: int| 0 <= c < cycles.len() && 0 <= i < cycles[c]@.len() && #[trigger] cycles[c]@[i] == x
}

/// Every completed node off the recorded cycles has completed successors
/// that finished before it.
#[verifier::opaque]
spec fn ranked_outside(adj: Seq<Vec<usize>>, completed: Seq<bool>, rank: Seq<int>, cycles: Seq<Vec<usize>>) -> bool {
    forall|x: int, j: int|
        0 <= x < adj.len() && completed[x] && !covered(cycles, x) && 0 <= j < adj[x]@.len() ==> completed[
            #[trigger] adj[x]@[j] as int]
            && rank[adj[x]@[j] as int] < rank[x]
}

/// `cycles` extends `before`.
#[verifier::opaque]
spec fn extends(before: Seq<Vec<usize>>, cycles: Seq<Vec<usize>>) -> bool {
    &&& before.len() <= cycles.len()
    &&& forall|k: int| 0 <= k < before.len() ==> #[trigger] cycles[k] == before[k]
}

proof fn lemma_extends_covered(before: Seq<Vec<usize>>, cycles: Seq<Vec<usize>>, x: int)
    requires
        extends(before, cycles),
        covered(before, x),
    ensures
        covered(cycles, x),
{
    reveal(covered);
    reveal(extends);
    let (c, i) = choose|c: int, i: int| 0 <= c < before.len() && 0 <= i < before[c]@.len() && #[trigger] before[c]@[i] == x;
    assert(cycles[c] == before[c]);
    assert(cycles[c]@[i] == x);
}

proof fn lemma_extends_trans(a: Seq<Vec<usize>>, b: Seq<Vec<usize>>, c: Seq<Vec<usize>>)
    requires
        extends(a, b),
        extends(b, c),
    ensures
        extends(a, c),
{
    reveal(extends);
    assert forall|k: int| 0 <= k < a.len() implies #[trigger] c[k] == a[k] by {
        assert(c[k] == b[k]);
    }
}

/// Finishing ranks so far are below `clock`; completed nodes are not on the stack.
spec fn clock_ok(completed: Seq<bool>, active: Seq<bool>, rank: Seq<int>, clock: int) -> bool {
    &&& forall|x: int| 0 <= x < completed.len() && #[trigger] completed[x] ==> rank[x] < clock
    &&& forall|x: int| 0 <= x < completed.len() && #[trigger] completed[x] ==> !active[x]
}

/// Each of the first `e` edges appears in the numbered graph.
spec fn edges_numbered(edges: Seq<(Vec<String>, Vec<String>)>, nodes: Seq<Vec<String>>, adj: Seq<Vec<usize>>, e: int) -> bool {
    forall|i: int|
        0 <= i < e ==> exists|a: int, b: int|
            0 <= a < nodes.len() && 0 <= b < nodes.len() && pv(nodes[a]@) == pv(#[trigger] edges[i].0@) && pv(
                nodes[b]@,
            ) == pv(edges[i].1@) && adj_edge(adj, a, b)
}

/// The node numbered for key path `p`.
spec fn node_of(nodes: Seq<Vec<String>>, p: Seq<Seq<char>>) -> int {
    choose|a: int| 0 <= a < nodes.len() && pv(nodes[a]@) == p
}

/// Along a walk of edges whose sources all finished, finishing ranks fall.
proof fn lemma_ranks_fall(
    edges: Seq<(Vec<String>, Vec<String>)>,
    nodes: Seq<Vec<String>>,
    adj: Seq<Vec<usize>>,
    completed: Seq<bool>,
    rank: Seq<int>,
    cycles: Seq<Vec<usize>>,
    is_source: Seq<bool>,
    w: Seq<Seq<Seq<char>>>,
    k: int,
)
    requires
        adj.len() == nodes.len(),
        completed.len() == nodes.len(),
        is_source.len() == nodes.len(),
        edges_numbered(edges, nodes, adj, edges.len() as int),
        forall|a: int, b: int| 0 <= a < b < nodes.len() ==> pv(nodes[a]@) != pv(nodes[b]@),
        forall|a: int| 0 <= a < nodes.len() && adj[a]@.len() > 0 ==> #[trigger] is_source[a],
        forall|a: int| 0 <= a < nodes.len() && #[trigger] is_source[a] ==> completed[a],
        ranked_outside(adj, completed, rank, cycles),
        forall|a: int, j: int| 0 <= a < adj.len() && 0 <= j < adj[a]@.len() ==> #[trigger] adj[a]@[j] < adj.len(),
        is_closed_walk(edges, w),
        forall|q: int| 0 <= q < w.len() ==> !covered(cycles, #[trigger] node_of(nodes, w[q])),
        1 <= k < w.len(),
    ensures
        0 <= node_of(nodes, w[k]) < nodes.len(),
        pv(nodes[node_of(nodes, w[k])]@) == w[k],
        completed[node_of(nodes, w[k])],
        rank[node_of(nodes, w[k])] < rank[node_of(nodes, w[0])],
    decreases k,
{
    reveal(ranked_outside);
    let i0 = k - 1;
    assert(is_edge(edges, w[i0], w[i0 + 1]));
    let i = choose|i: int| 0 <= i < edges.len() && pv(#[trigger] edges[i].0@) == w[i0] && pv(edges[i].1@) == w[i0 + 1];
    let (a, b) = choose|a: int, b: int|
        0 <= a < nodes.len() && 0 <= b < nodes.len() && pv(nodes[a]@) == pv(#[trigger] edges[i].0@) && pv(nodes[b]@)
            == pv(edges[i].1@) && adj_edge(adj, a, b);
    let na = node_of(nodes, w[i0]);
    let nb = node_of(nodes, w[k]);
    assert(0 <= na < nodes.len() && pv(nodes[na]@) == w[i0]);
    assert(0 <= nb < nodes.len() && pv(nodes[nb]@) == w[k]);
    if na != a {
        if na < a {
            assert(pv(nodes[na]@) != pv(nodes[a]@));
        } else {
            assert(pv(nodes[a]@) != pv(nodes[na]@));
        }
    }
    if nb != b {
        if nb < b {
            assert(pv(nodes[nb]@) != pv(nodes[b]@));
        } else {
            assert(pv(nodes[b]@) != pv(nodes[nb]@));
        }
    }
    let j = choose|j: int| 0 <= j < adj[a]@.len() && adj[a]@[j] == b;
    assert(adj[a]@.len() > 0);
    assert(is_source[a]);
    assert(completed[a]);
    assert(!covered(cycles, node_of(nodes, w[i0])));
    assert(adj[a]@[j] as int == b);
    assert(completed[b] && rank[b] < rank[a]);
    if k > 1 {
        lemma_ranks_fall(edges, nodes, adj, completed, rank, cycles, is_source, w, k - 1);
    }
}

/// Each path of a closed walk is a numbered node.
proof fn lemma_walk_nodes(
    edges: Seq<(Vec<String>, Vec<String>)>,
    nodes: Seq<Vec<String>>,
    adj: Seq<Vec<usize>>,
    w: Seq<Seq<Seq<char>>>,
)
    requires
        edges_numbered(edges, nodes, adj, edges.len() as int),
        is_closed_walk(edges, w),
    ensures
        forall|q: int| 0 <= q < w.len() ==> 0 <= #[trigger] node_of(nodes, w[q]) < nodes.len() && pv(nodes[node_of(nodes, w[q])]@) == w[q],
{
    assert forall|q: int| 0 <= q < w.len() implies 0 <= #[trigger] node_of(nodes, w[q]) < nodes.len() && pv(nodes[node_of(nodes, w[q])]@) == w[q] by {
        let q0 = if q == w.len() - 1 { 0 } else { q };
        assert(w[q0] == w[q]);
        assert(is_edge(edges, w[q0], w[q0 + 1]));
        let i = choose|i: int| 0 <= i < edges.len() && pv(#[trigger] edges[i].0@) == w[q0] && pv(edges[i].1@) == w[q0 + 1];
        let (a, b) = choose|a: int, b: int|
            0 <= a < nodes.len() && 0 <= b < nodes.len() && pv(nodes[a]@) == pv(#[trigger] edges[i].0@) && pv(nodes[b]@)
                == pv(edges[i].1@) && adj_edge(adj, a, b);
        assert(0 <= a < nodes.len() && pv(nodes[a]@) == w[q]);
    }
}

/// Every closed walk passes a node of a recorded cycle.
#[verifier::opaque]
spec fn walks_meet(edges: Seq<(Vec<String>, Vec<String>)>, nodes: Seq<Vec<String>>, found: Seq<Vec<usize>>) -> bool {
    forall|w: Seq<Seq<Seq<char>>>| #[trigger] is_closed_walk(edges, w) ==> exists|q: int|
        0 <= q < w.len() && covered(found, #[trigger] node_of(nodes, w[q]))
}

/// Once every source has finished, a closed walk off the recorded cycles
/// would have falling ranks all the way round.
proof fn lemma_walks_meet_found(
    edges: Seq<(Vec<String>, Vec<String>)>,
    nodes: Seq<Vec<String>>,
    adj: Seq<Vec<usize>>,
    completed: Seq<bool>,
    rank: Seq<int>,
    found: Seq<Vec<usize>>,
    is_source: Seq<bool>,
)
    requires
        adj.len() == nodes.len(),
        completed.len() == nodes.len(),
        is_source.len() == nodes.len(),
        edges_numbered(edges, nodes, adj, edges.len() as int),
        forall|a: int, b: int| 0 <= a < b < nodes.len() ==> pv(nodes[a]@) != pv(nodes[b]@),
        forall|a: int| 0 <= a < nodes.len() && adj[a]@.len() > 0 ==> #[trigger] is_source[a],
        forall|a: int| 0 <= a < nodes.len() && #[trigger] is_source[a] ==> completed[a],
        ranked_outside(adj, completed, rank, found),
        forall|a: int, j: int| 0 <= a < adj.len() && 0 <= j < adj[a]@.len() ==> #[trigger] adj[a]@[j] < adj.len(),
    ensures
        walks_meet(edges, nodes, found),
{
    reveal(walks_meet);
    assert forall|w: Seq<Seq<Seq<char>>>| #[trigger] is_closed_walk(edges, w) implies exists|q: int|
        0 <= q < w.len() && covered(found, #[trigger] node_of(nodes, w[q])) by {
        if !exists|q: int| 0 <= q < w.len() && covered(found, #[trigger] node_of(nodes, w[q])) {
            lemma_ranks_fall(edges, nodes, adj, completed, rank, found, is_source, w, w.len() - 1);
            assert(w[w.len() - 1] == w[0]);
        }
    }
}

/// The reported cycles, by key path, meet every closed walk.
proof fn lemma_walks_meet_cycles(
    edges: Seq<(Vec<String>, Vec<String>)>,
    nodes: Seq<Vec<String>>,
    adj: Seq<Vec<usize>>,
    found: Seq<Vec<usize>>,
    cycles: Seq<SemanticCycle>,
)
    requires
        edges_numbered(edges, nodes, adj, edges.len() as int),
        walks_meet(edges, nodes, found),
        cycles.len() == found.len(),
        forall|k: int| 0 <= k < cycles.len() ==> cycle_paths(#[trigger] cycles[k]) == found[k]@.map_values(
            |x: usize| pv(nodes[x as int]@),
        ),
    ensures
        forall|w: Seq<Seq<Seq<char>>>| #[trigger] is_closed_walk(edges, w) ==> exists|c: int, k: int|
            0 <= c < cycles.len() && 0 <= k < w.len() && #[trigger] cycle_paths(cycles[c]).contains(w[k]),
        cycles.len() == 0 ==> forall|w: Seq<Seq<Seq<char>>>| !#[trigger] is_closed_walk(edges, w),
{
    reveal(walks_meet);
    reveal(covered);
    assert forall|w: Seq<Seq<Seq<char>>>| #[trigger] is_closed_walk(edges, w) implies exists|c: int, k: int|
        0 <= c < cycles.len() && 0 <= k < w.len() && #[trigger] cycle_paths(cycles[c]).contains(w[k]) by {
        let q = choose|q: int| 0 <= q < w.len() && covered(found, #[trigger] node_of(nodes, w[q]));
        lemma_walk_nodes(edges, nodes, adj, w);
        let x = node_of(nodes, w[q]);
        let (c, i) = choose|c: int, i: int| 0 <= c < found.len() && 0 <= i < found[c]@.len() && #[trigger] found[c]@[i] == x;
        let ps = cycle_paths(cycles[c]);
        assert(ps == found[c]@.map_values(|x: usize| pv(nodes[x as int]@)));
        assert(ps[i] == w[q]);
        assert(ps.contains(w[q]));
    }
    if cycles.len() == 0 {
        assert forall|w: Seq<Seq<Seq<char>>>| !#[trigger] is_closed_walk(edges, w) by {
            if is_closed_walk(edges, w) {
                let q = choose|q: int| 0 <= q < w.len() && covered(found, #[trigger] node_of(nodes, w[q]));
            }
        }
    }
}

/// Every recorded cycle is a closed walk, and no cycle is recorded twice.
spec fn cycles_ok(n: nat, adj: Seq<Vec<usize>>, cycles: Seq<Vec<usize>>) -> bool {
    &&& forall|c: int|
        0 <= c < cycles.len() ==> {
            let s = (#[trigger] cycles[c])@;
            &&& s.len() >= 2
            &&& s[0] == s.last()
            &&& walk(adj, s)
            &&& forall|k: int| 0 <= k < s.len() ==> s[k] < n
            &&& forall|k: int, l: int| 0 <= k < l < s.len() - 1 ==> s[k] != s[l]
        }
    &&& forall|c: int, d: int| 0 <= c < d < cycles.len() ==> cycles[c]@ != cycles[d]@
    &&& forall|c: int, d: int| 0 <= c < d < cycles.len() ==> !same_nodes(#[trigger] cycles[c]@, #[trigger] cycles[d]@)
}

/// `a` and `b` pass the same nodes.
pub open spec fn same_nodes<T>(a: Seq<T>, b: Seq<T>) -> bool {
    forall|x: T| a.contains(x) <==> b.contains(x)
}

/// `s` without its closing node lies on the stack from position `p` on.
spec fn window_at(stack: Seq<usize>, s: Seq<usize>, p: int) -> bool {
    &&& 0 <= p
    &&& p + s.len() - 1 <= stack.len()
    &&& forall|i: int| 0 <= i < s.len() - 1 ==> s[i] == stack[p + i]
}

/// A recorded cycle has a completed node, or still lies on the stack.
spec fn placed(completed: Seq<bool>, stack: Seq<usize>, s: Seq<usize>) -> bool {
    ||| exists|i: int| 0 <= i < s.len() && #[trigger] completed[s[i] as int]
    ||| exists|p: int| #[trigger] window_at(stack, s, p)
}

spec fn cycles_placed(completed: Seq<bool>, stack: Seq<usize>, cycles: Seq<Vec<usize>>) -> bool {
    forall|c: int| 0 <= c < cycles.len() ==> placed(completed, stack, #[trigger] cycles[c]@)
}

/// A cycle newly closed on top of the stack passes other nodes than any
/// earlier recorded one: an earlier one with the same nodes would lie on the
/// stack at the same place, and so be the same cycle.
proof fn lemma_new_cycle_nodes(
    completed: Seq<bool>,
    active: Seq<bool>,
    stack: Seq<usize>,
    c: Seq<usize>,
    fresh: Seq<usize>,
    pos: int,
    n: nat,
)
    requires
        completed.len() == n,
        active.len() == n,
        forall|k: int| 0 <= k < stack.len() ==> (#[trigger] stack[k]) < n && active[stack[k] as int],
        forall|k: int, l: int| 0 <= k < l < stack.len() ==> stack[k] != stack[l],
        forall|x: int| 0 <= x < n && #[trigger] completed[x] ==> !active[x],
        placed(completed, stack, c),
        c.len() >= 2,
        c[0] == c.last(),
        forall|k: int| 0 <= k < c.len() ==> c[k] < n,
        0 <= pos < stack.len(),
        fresh.len() == stack.len() - pos + 1,
        window_at(stack, fresh, pos),
        fresh.last() == stack[pos],
        c != fresh,
    ensures
        !same_nodes(c, fresh),
{
    if same_nodes(c, fresh) {
        assert forall|j: int| 0 <= j < fresh.len() implies exists|k: int| pos <= k < stack.len() && stack[k] == #[trigger] fresh[j] by {
            if j < fresh.len() - 1 {
                assert(fresh[j] == stack[pos + j]);
            } else {
                assert(fresh[j] == stack[pos]);
            }
        }
        if exists|i: int| 0 <= i < c.len() && #[trigger] completed[c[i] as int] {
            let i = choose|i: int| 0 <= i < c.len() && #[trigger] completed[c[i] as int];
            assert(c.contains(c[i]));
            assert(fresh.contains(c[i]));
            let j = choose|j: int| 0 <= j < fresh.len() && fresh[j] == c[i];
            let k = choose|k: int| pos <= k < stack.len() && stack[k] == fresh[j];
            assert(active[stack[k] as int]);
            assert(!active[c[i] as int]);
        } else {
            let p = choose|p: int| #[trigger] window_at(stack, c, p);
            assert(fresh[0] == stack[pos]);
            assert(fresh.contains(fresh[0]));
            assert(c.contains(stack[pos]));
            let i = choose|i: int| 0 <= i < c.len() && c[i] == stack[pos];
            let i2 = if i == c.len() - 1 { 0 } else { i };
            assert(c[i2] == stack[pos]);
            assert(c[i2] == stack[p + i2]);
            if p + i2 != pos {
                if p + i2 < pos {
                    assert(stack[p + i2] != stack[pos]);
                } else {
                    assert(stack[pos] != stack[p + i2]);
                }
            }
            assert(c.contains(c[0]));
            assert(fresh.contains(c[0]));
            let j = choose|j: int| 0 <= j < fresh.len() && fresh[j] == c[0];
            let j2 = if j == fresh.len() - 1 { 0 } else { j };
            assert(fresh[j2] == c[0]);
            assert(fresh[j2] == stack[pos + j2]);
            assert(c[0] == stack[p]);
            if pos + j2 != p {
                if pos + j2 < p {
                    assert(stack[pos + j2] != stack[p]);
                } else {
                    assert(stack[p] != stack[pos + j2]);
                }
            }
            assert(p == pos);
            if c.len() < fresh.len() {
                let top = stack.len() - 1;
                assert(fresh[fresh.len() - 2] == stack[top]);
                assert(fresh.contains(fresh[fresh.len() - 2]));
                assert(c.contains(stack[top]));
                let a = choose|a: int| 0 <= a < c.len() && c[a] == stack[top];
                let a2 = if a == c.len() - 1 { 0 } else { a };
                assert(c[a2] == stack[p + a2]);
                assert(stack[p + a2] != stack[top]);
            }
            assert(c.len() == fresh.len());
            assert forall|k: int| 0 <= k < c.len() implies c[k] == fresh[k] by {
                if k < c.len() - 1 {
                    assert(c[k] == stack[p + k]);
                    assert(fresh[k] == stack[pos + k]);
                } else {
                    assert(c[k] == c[0]);
                    assert(c[0] == stack[p]);
                }
            }
            assert(c =~= fresh);
        }
    }
}

fn seq_eq(a: &Vec<usize>, b: &Vec<usize>) -> (r: bool)
    ensures
        r == (a@ == b@),
{
    if a.len() != b.len() {
        return false;
    }
    let mut i: usize = 0;
    while i < a.len()
        invariant
            a@.len() == b@.len(),
            i <= a@.len(),
            forall|k: int| 0 <= k < i ==> a@[k] == b@[k],
        decreases a@.len() - i,
    {
        if a[i] != b[i] {
            return false;
        }
        i = i + 1;
    }
    assert(a@ =~= b@);
    true
}

fn known_cycle(cycles: &Vec<Vec<usize>>, c: &Vec<usize>) -> (r: bool)
    ensures
        r == exists|k: int| 0 <= k < cycles@.len() && (#[trigger] cycles@[k])@ == c@,
{
    let mut i: usize = 0;
    while i < cycles.len()
        invariant
            i <= cycles@.len(),
            forall|k: int| 0 <= k < i ==> (#[trigger] cycles@[k])@ != c@,
        decreases cycles@.len() - i,
    {
        if seq_eq(&cycles[i], c) {
            return true;
        }
        i = i + 1;
    }
    false
}

/// The stack from position `pos` on, closed by the edge back to `t`, is a
/// simple closed walk that lies on the stack.
proof fn lemma_closed_cycle(stack: Seq<usize>, pos: int, t: usize, s: Seq<usize>, adj: Seq<Vec<usize>>, n: nat)
    requires
        forall|k: int| 0 <= k < stack.len() ==> (#[trigger] stack[k]) < n,
        forall|k: int, l: int| 0 <= k < l < stack.len() ==> stack[k] != stack[l],
        forall|q: int| 0 <= q < stack.len() - 1 ==> #[trigger] adj_edge(adj, stack[q] as int, stack[q + 1] as int),
        0 <= pos < stack.len(),
        stack[pos] == t,
        adj_edge(adj, stack.last() as int, t as int),
        s == stack.subrange(pos, stack.len() as int).push(t),
    ensures
        s.len() >= 2,
        s.len() == stack.len() - pos + 1,
        s[0] == s.last(),
        s.last() == stack[pos],
        walk(adj, s),
        forall|k: int| 0 <= k < s.len() ==> s[k] < n,
        forall|k: int, l: int| 0 <= k < l < s.len() - 1 ==> s[k] != s[l],
        window_at(stack, s, pos),
        0 <= stack.len() - 1 - pos < s.len(),
        s[stack.len() - 1 - pos] == stack.last(),
{
    assert(s[0] == t);
    assert forall|a: int, b: int| 0 <= a < b < s.len() - 1 implies s[a] != s[b] by {
        assert(s[a] == stack[pos + a] && s[b] == stack[pos + b]);
    }
    assert forall|q: int| 0 <= q < s.len() - 1 implies #[trigger] adj_edge(adj, s[q] as int, s[q + 1] as int) by {
        if q < s.len() - 2 {
            assert(s[q] == stack[pos + q] && s[q + 1] == stack[pos + q + 1]);
            assert(adj_edge(adj, stack[pos + q] as int, stack[pos + q + 1] as int));
        } else {
            assert(s[q] == stack.last());
        }
    }
    assert forall|k: int| 0 <= k < s.len() implies s[k] < n by {
        if k < s.len() - 1 {
            assert(s[k] == stack[pos + k]);
        }
    }
}

/// Adding a new cycle that lies on the stack keeps the recorded cycles
/// well-formed and placed, and covers the top of the stack.
proof fn lemma_push_cycle(
    before: Seq<Vec<usize>>,
    added: Vec<usize>,
    stack: Seq<usize>,
    pos: int,
    completed: Seq<bool>,
    active: Seq<bool>,
    adj: Seq<Vec<usize>>,
    n: nat,
)
    requires
        cycles_ok(n, adj, before),
        cycles_placed(completed, stack, before),
        completed.len() == n,
        active.len() == n,
        forall|k: int| 0 <= k < stack.len() ==> (#[trigger] stack[k]) < n && active[stack[k] as int],
        forall|k: int, l: int| 0 <= k < l < stack.len() ==> stack[k] != stack[l],
        forall|x: int| 0 <= x < n && #[trigger] completed[x] ==> !active[x],
        0 <= pos < stack.len(),
        added@.len() == stack.len() - pos + 1,
        added@.last() == stack[pos],
        added@.len() >= 2,
        added@[0] == added@.last(),
        walk(adj, added@),
        forall|k: int| 0 <= k < added@.len() ==> added@[k] < n,
        forall|k: int, l: int| 0 <= k < l < added@.len() - 1 ==> added@[k] != added@[l],
        window_at(stack, added@, pos),
        0 <= stack.len() - 1 - pos < added@.len(),
        added@[stack.len() - 1 - pos] == stack.last(),
        forall|c: int| 0 <= c < before.len() ==> (#[trigger] before[c])@ != added@,
    ensures
        cycles_ok(n, adj, before.push(added)),
        cycles_placed(completed, stack, before.push(added)),
        extends(before, before.push(added)),
        covered(before.push(added), stack.last() as int),
{
    assert forall|c: int| 0 <= c < before.len() implies !same_nodes(#[trigger] before[c]@, added@) by {
        lemma_new_cycle_nodes(completed, active, stack, before[c]@, added@, pos, n);
    }
    let cs = before.push(added);
    assert(cs[cs.len() - 1] == added);
    assert(covered(cs, stack.last() as int)) by {
        reveal(covered);
        assert(cs[cs.len() - 1]@[stack.len() - 1 - pos] == stack.last());
    }
    assert(extends(before, cs)) by {
        reveal(extends);
        assert forall|k: int| 0 <= k < before.len() implies #[trigger] cs[k] == before[k] by {}
    }
    assert forall|c: int| 0 <= c < cs.len() implies {
        let s = (#[trigger] cs[c])@;
        &&& s.len() >= 2
        &&& s[0] == s.last()
        &&& walk(adj, s)
        &&& forall|k: int| 0 <= k < s.len() ==> s[k] < n
        &&& forall|k: int, l: int| 0 <= k < l < s.len() - 1 ==> s[k] != s[l]
    } by {
        if c < before.len() {
            assert(cs[c] == before[c]);
        }
    }
    assert forall|c: int, d: int| 0 <= c < d < cs.len() implies cs[c]@ != cs[d]@ by {
        assert(cs[c] == before[c]);
        if d < cs.len() - 1 {
            assert(cs[d] == before[d]);
        }
    }
    assert forall|c: int, d: int| 0 <= c < d < cs.len() implies !same_nodes(#[trigger] cs[c]@, #[trigger] cs[d]@) by {
        assert(cs[c] == before[c]);
        if d < cs.len() - 1 {
            assert(cs[d] == before[d]);
        }
    }
    assert forall|c: int| 0 <= c < cs.len() implies placed(completed, stack, #[trigger] cs[c]@) by {
        if c < before.len() {
            assert(cs[c] == before[c]);
        } else {
            assert(window_at(stack, cs[c]@, pos));
        }
    }
}

/// Records the cycle that the edge from the top of the stack back to `t`
/// closes, unless it is recorded already.
fn close_cycle(
    t: usize,
    adj: &Vec<Vec<usize>>,
    stack: &Vec<usize>,
    cycles: &mut Vec<Vec<usize>>,
    Ghost(completed): Ghost<Seq<bool>>,
    Ghost(active): Ghost<Seq<bool>>,
)
    requires
        dfs_ok(adj@.len() as nat, adj@, active, stack@),
        stack@.len() > 0,
        t < adj@.len(),
        active[t as int],
        adj_edge(adj@, stack@.last() as int, t as int),
        completed.len() == adj@.len(),
        forall|x: int| 0 <= x < completed.len() && #[trigger] completed[x] ==> !active[x],
        cycles_ok(adj@.len() as nat, adj@, old(cycles)@),
        cycles_placed(completed, stack@, old(cycles)@),
    ensures
        cycles_ok(adj@.len() as nat, adj@, final(cycles)@),
        cycles_placed(completed, stack@, final(cycles)@),
        final(cycles)@.len() > 0,
        extends(old(cycles)@, final(cycles)@),
        covered(final(cycles)@, stack@.last() as int),
{
    let n = adj.len();
    let ghost active_at = active;
    let ghost completed_at = completed;
    let mut pos: usize = 0;
    while pos < stack.len() && stack[pos] != t
        invariant
            pos <= stack@.len(),
            forall|k: int| 0 <= k < pos ==> stack@[k] != t,
        decreases stack@.len() - pos,
    {
        pos = pos + 1;
    }
    if pos < stack.len() {
        let mut cycle: Vec<usize> = Vec::new();
        let mut k = pos;
        while k < stack.len()
            invariant
                pos <= k <= stack@.len(),
                cycle@ == stack@.subrange(pos as int, k as int),
            decreases stack@.len() - k,
        {
            cycle.push(stack[k]);
            k = k + 1;
            assert(cycle@ =~= stack@.subrange(pos as int, k as int));
        }
        cycle.push(t);
        proof {
            assert forall|q: int| 0 <= q < stack@.len() - 1 implies #[trigger] adj_edge(adj@, stack@[q] as int, stack@[q + 1] as int) by {
                assert(walk(adj@, stack@));
            }
            lemma_closed_cycle(stack@, pos as int, t, cycle@, adj@, n as nat);
        }
        if !known_cycle(cycles, &cycle) {
            let ghost before = cycles@;
            let ghost added = cycle;
            cycles.push(cycle);
            proof {
                lemma_push_cycle(before, added, stack@, pos as int, completed_at, active_at, adj@, n as nat);
            }
        } else {
            proof {
                let k = choose|k: int| 0 <= k < cycles@.len() && (#[trigger] cycles@[k])@ == cycle@;
                assert(cycles@[k]@[stack@.len() - 1 - pos] == stack@.last());
                assert(covered(cycles@, stack@.last() as int)) by {
                    reveal(covered);
                }
                assert(extends(cycles@, cycles@)) by {
                    reveal(extends);
                }
            }
        }
    } else {
        proof {
            assert(stack@.contains(t));
            let k = choose|k: int| 0 <= k < stack@.len() && stack@[k] == t;
            assert(stack@[k] != t);
        }
    }
}

/// Depth-first visit of node `v`, recording each cycle closed by an edge
/// back to a node on the stack.
#[verifier::rlimit(100)]
fn visit(
    v: usize,
    adj: &Vec<Vec<usize>>,
    active: &mut Vec<bool>,
    completed: &mut Vec<bool>,
    stack: &mut Vec<usize>,
    cycles: &mut Vec<Vec<usize>>,
    rank: &mut Ghost<Seq<int>>,
    clock: &mut Ghost<int>,
)
    requires
        v < adj@.len(),
        old(completed)@.len() == adj@.len(),
        old(rank)@.len() == adj@.len(),
        clock_ok(old(completed)@, old(active)@, old(rank)@, old(clock)@),
        ranked_outside(adj@, old(completed)@, old(rank)@, old(cycles)@),
        !old(active)@[v as int],
        dfs_ok(adj@.len() as nat, adj@, old(active)@, old(stack)@),
        old(stack)@.len() > 0 ==> adj_edge(adj@, old(stack)@.last() as int, v as int),
        forall|a: int, j: int|
            0 <= a < adj@.len() && 0 <= j < adj@[a]@.len() ==> #[trigger] adj@[a]@[j] < adj@.len(),
        cycles_ok(adj@.len() as nat, adj@, old(cycles)@),
        cycles_placed(old(completed)@, old(stack)@, old(cycles)@),
    ensures
        final(active)@ == old(active)@,
        final(stack)@ == old(stack)@,
        final(completed)@.len() == adj@.len(),
        cycles_ok(adj@.len() as nat, adj@, final(cycles)@),
        cycles_placed(final(completed)@, final(stack)@, final(cycles)@),
        final(rank)@.len() == adj@.len(),
        final(completed)@[v as int],
        forall|x: int|
            0 <= x < adj@.len() && #[trigger] old(completed)@[x] ==> final(completed)@[x] && final(rank)@[x] == old(
                rank,
            )@[x],
        clock_ok(final(completed)@, final(active)@, final(rank)@, final(clock)@),
        extends(old(cycles)@, final(cycles)@),
        ranked_outside(adj@, final(completed)@, final(rank)@, final(cycles)@),
    decreases count_false(old(active)@),
{
    proof {
        assert(extends(cycles@, cycles@)) by {
            reveal(extends);
        }
    }
    if completed[v] {
        return;
    }
    let ghost a0 = active@;
    let ghost s0 = stack@;
    let n = adj.len();
    proof {
        lemma_count_false_set(active@, v as int);
    }
    active.set(v, true);
    stack.push(v);
    proof {
        assert forall|c: int| 0 <= c < cycles@.len() implies placed(completed@, stack@, #[trigger] cycles@[c]@) by {
            let cs = cycles@[c]@;
            if !(exists|i: int| 0 <= i < cs.len() && #[trigger] completed@[cs[i] as int]) {
                let p = choose|p: int| #[trigger] window_at(s0, cs, p);
                assert(window_at(stack@, cs, p));
            }
        }
        assert(stack@.last() == v);
        assert forall|k: int| 0 <= k < stack@.len() - 1 implies #[trigger] adj_edge(adj@, stack@[k] as int, stack@[k + 1] as int) by {
            if k < s0.len() - 1 {
                assert(stack@[k] == s0[k] && stack@[k + 1] == s0[k + 1]);
            } else {
                assert(stack@[k] == s0.last());
            }
        }
        assert forall|x: int| 0 <= x < n && #[trigger] active@[x] implies stack@.contains(x as usize) by {
            if x == v {
                assert(stack@[stack@.len() - 1] == v);
            } else {
                assert(a0[x]);
                let k = choose|k: int| 0 <= k < s0.len() && s0[k] == x as usize;
                assert(stack@[k] == x as usize);
            }
        }
    }
    let targets = &adj[v];
    let mut j: usize = 0;
    while j < targets.len()
        invariant
            n == adj@.len(),
            v < n,
            targets@ == adj@[v as int]@,
            j <= targets@.len(),
            a0.len() == n,
            active@ == a0.update(v as int, true),
            stack@ == s0.push(v),
            completed@.len() == n,
            count_false(active@) + 1 == count_false(a0),
            a0 == old(active)@,
            dfs_ok(n as nat, adj@, active@, stack@),
            forall|a: int, k: int|
                0 <= a < adj@.len() && 0 <= k < adj@[a]@.len() ==> #[trigger] adj@[a]@[k] < adj@.len(),
            cycles_ok(n as nat, adj@, cycles@),
            cycles_placed(completed@, stack@, cycles@),
            rank@.len() == n,
            !completed@[v as int],
            clock_ok(completed@, active@, rank@, clock@),
            extends(old(cycles)@, cycles@),
            ranked_outside(adj@, completed@, rank@, cycles@),
            forall|x: int|
                0 <= x < n && #[trigger] old(completed)@[x] ==> completed@[x] && rank@[x] == old(rank)@[x],
            !covered(cycles@, v as int) ==> forall|k: int| 0 <= k < j ==> #[trigger] completed@[targets@[k] as int],
        decreases targets@.len() - j,
    {
        let t = targets[j];
        assert(adj_edge(adj@, v as int, t as int));
        let ghost cy0 = cycles@;
        if active[t] {
            close_cycle(t, adj, stack, cycles, Ghost(completed@), Ghost(active@));
            proof {
                lemma_extends_trans(old(cycles)@, cy0, cycles@);
                assert(stack@.last() == v);
                assert(ranked_outside(adj@, completed@, rank@, cycles@)) by {
                    reveal(ranked_outside);
                    assert forall|x: int, k: int|
                        0 <= x < adj@.len() && completed@[x] && !covered(cycles@, x) && 0 <= k < adj@[x]@.len()
                        implies completed@[#[trigger] adj@[x]@[k] as int] && rank@[adj@[x]@[k] as int] < rank@[x] by {
                        if covered(cy0, x) {
                            lemma_extends_covered(cy0, cycles@, x);
                        }
                    }
                }
            }
        } else {
            let ghost c0 = completed@;
            visit(t, adj, active, completed, stack, cycles, rank, clock);
            proof {
                lemma_extends_trans(old(cycles)@, cy0, cycles@);
                assert(active@[v as int]);
                assert(!completed@[v as int]);
                if !covered(cycles@, v as int) {
                    if covered(cy0, v as int) {
                        lemma_extends_covered(cy0, cycles@, v as int);
                    }
                    assert forall|k: int| 0 <= k < j + 1 implies #[trigger] completed@[targets@[k] as int] by {
                        if k < j {
                            assert(c0[targets@[k] as int]);
                        }
                    }
                }
            }
        }
        j = j + 1;
    }
    stack.pop();
    active.set(v, false);
    let ghost c1 = completed@;
    let ghost r1 = rank@;
    completed.set(v, true);
    proof {
        rank@ = rank@.update(v as int, clock@);
        clock@ = clock@ + 1;
    }
    proof {
        assert(stack@ =~= s0);
        assert(active@ =~= a0);
        assert(!c1[v as int]);
        assert forall|c: int| 0 <= c < cycles@.len() implies placed(completed@, stack@, #[trigger] cycles@[c]@) by {
            let cs = cycles@[c]@;
            assert(placed(c1, s0.push(v), cs));
            if exists|i: int| 0 <= i < cs.len() && #[trigger] c1[cs[i] as int] {
                let i = choose|i: int| 0 <= i < cs.len() && #[trigger] c1[cs[i] as int];
                assert(completed@[cs[i] as int]);
            } else {
                let p = choose|p: int| #[trigger] window_at(s0.push(v), cs, p);
                if p + cs.len() - 1 <= s0.len() {
                    assert(window_at(stack@, cs, p));
                } else {
                    let i = s0.len() - p;
                    assert(cs[i] == s0.push(v)[p + i]);
                    assert(completed@[cs[i] as int]);
                }
            }
        }
        assert forall|x: int| 0 <= x < n && #[trigger] completed@[x] implies rank@[x] < clock@ by {
            if x != v {
                assert(c1[x]);
            }
        }
        assert forall|x: int| 0 <= x < n && #[trigger] completed@[x] implies !active@[x] by {
            if x != v {
                assert(c1[x]);
                assert(!a0.update(v as int, true)[x]);
            }
        }
        assert(ranked_outside(adj@, completed@, rank@, cycles@)) by {
            reveal(ranked_outside);
            assert forall|x: int, k: int|
                0 <= x < adj@.len() && completed@[x] && !covered(cycles@, x) && 0 <= k < adj@[x]@.len() implies completed@[
                #[trigger] adj@[x]@[k] as int]
                && rank@[adj@[x]@[k] as int] < rank@[x] by {
                let y = adj@[x]@[k] as int;
                if x == v {
                    assert(targets@[k] as int == y);
                    assert(c1[y]);
                    assert(y != v);
                } else {
                    assert(c1[x]);
                    assert(c1[y]);
                    if y == v {
                        assert(false);
                    }
                }
            }
        }
    }
}

/// The reported cycles, by key path, are simple closed walks over `edges`,
/// pairwise distinct and over different sets of paths.
proof fn lemma_reported_cycles(
    kind: CycleKind,
    edges: Seq<(Vec<String>, Vec<String>)>,
    nodes: Seq<Vec<String>>,
    adj: Seq<Vec<usize>>,
    found: Seq<Vec<usize>>,
    cycles: Seq<SemanticCycle>,
)
    requires
        graph_ok(edges, nodes, adj),
        forall|a: int, b: int| 0 <= a < b < nodes.len() ==> pv(nodes[a]@) != pv(nodes[b]@),
        cycles_ok(nodes.len(), adj, found),
        cycles.len() == found.len(),
        forall|k: int| 0 <= k < cycles.len() ==> {
            &&& (#[trigger] cycles[k]).kind == kind
            &&& cycle_paths(cycles[k]) == found[k]@.map_values(|x: usize| pv(nodes[x as int]@))
        },
    ensures
        forall|c: int| 0 <= c < cycles.len() ==> (#[trigger] cycles[c]).kind == kind && is_closed_walk(edges, cycle_paths(cycles[c]))
            && is_simple(cycle_paths(cycles[c])),
        forall|c: int, d: int| 0 <= c < d < cycles.len() ==> cycle_paths(cycles[c]) != cycle_paths(cycles[d]),
        forall|c: int, d: int| 0 <= c < d < cycles.len() ==> !same_nodes(cycle_paths(#[trigger] cycles[c]), cycle_paths(#[trigger] cycles[d])),
{
    let f = |x: usize| pv(nodes[x as int]@);
    assert forall|q: int| 0 <= q < cycles.len() implies (#[trigger] cycles[q]).kind == kind && is_closed_walk(edges, cycle_paths(cycles[q]))
        && is_simple(cycle_paths(cycles[q])) by {
        let s = found[q]@;
        let ps = cycle_paths(cycles[q]);
        assert(ps == s.map_values(f));
        assert forall|k: int, l: int| 0 <= k < l < ps.len() - 1 implies ps[k] != ps[l] by {
            assert(s[k] != s[l]);
            assert(ps[k] == pv(nodes[s[k] as int]@) && ps[l] == pv(nodes[s[l] as int]@));
            if s[k] < s[l] {
                assert(pv(nodes[s[k] as int]@) != pv(nodes[s[l] as int]@));
            } else {
                assert(pv(nodes[s[l] as int]@) != pv(nodes[s[k] as int]@));
            }
        }
        assert forall|k: int| 0 <= k < ps.len() - 1 implies is_edge(edges, #[trigger] ps[k], ps[k + 1]) by {
            assert(adj_edge(adj, s[k] as int, s[k + 1] as int));
            let j = choose|j: int| 0 <= j < adj[s[k] as int]@.len() && adj[s[k] as int]@[j] == s[k + 1];
            assert(adj[s[k] as int]@[j] < nodes.len());
        }
    }
    assert forall|a: int, b: int| 0 <= a < b < cycles.len() implies !same_nodes(cycle_paths(#[trigger] cycles[a]), cycle_paths(#[trigger] cycles[b])) by {
        let sa = found[a]@;
        let sb = found[b]@;
        let pa = cycle_paths(cycles[a]);
        let pb = cycle_paths(cycles[b]);
        assert(pa == sa.map_values(f));
        assert(pb == sb.map_values(f));
        assert(!same_nodes(found[a]@, found[b]@));
        if same_nodes(pa, pb) {
            assert forall|x: usize| sa.contains(x) implies sb.contains(x) by {
                let i = choose|i: int| 0 <= i < sa.len() && sa[i] == x;
                assert(pa[i] == f(x));
                assert(pa.contains(f(x)));
                assert(pb.contains(f(x)));
                let j = choose|j: int| 0 <= j < pb.len() && pb[j] == f(x);
                assert(pb[j] == f(sb[j]));
                if sb[j] != x {
                    if sb[j] < x {
                        assert(pv(nodes[sb[j] as int]@) != pv(nodes[x as int]@));
                    } else {
                        assert(pv(nodes[x as int]@) != pv(nodes[sb[j] as int]@));
                    }
                }
            }
            assert forall|x: usize| sb.contains(x) implies sa.contains(x) by {
                let i = choose|i: int| 0 <= i < sb.len() && sb[i] == x;
                assert(pb[i] == f(x));
                assert(pb.contains(f(x)));
                assert(pa.contains(f(x)));
                let j = choose|j: int| 0 <= j < pa.len() && pa[j] == f(x);
                assert(pa[j] == f(sa[j]));
                if sa[j] != x {
                    if sa[j] < x {
                        assert(pv(nodes[sa[j] as int]@) != pv(nodes[x as int]@));
                    } else {
                        assert(pv(nodes[x as int]@) != pv(nodes[sa[j] as int]@));
                    }
                }
            }
            assert(same_nodes(sa, sb));
        }
    }
    assert forall|a: int, b: int| 0 <= a < b < cycles.len() implies cycle_paths(cycles[a]) != cycle_paths(cycles[b]) by {
        let sa = found[a]@;
        let sb = found[b]@;
        assert(sa != sb);
        if cycle_paths(cycles[a]) == cycle_paths(cycles[b]) {
            assert(sa.len() == sb.len());
            assert forall|k: int| 0 <= k < sa.len() implies sa[k] == sb[k] by {
                assert(sa.map_values(f)[k] == sb.map_values(f)[k]);
                if sa[k] != sb[k] {
                    if sa[k] < sb[k] {
                        assert(pv(nodes[sa[k] as int]@) != pv(nodes[sb[k] as int]@));
                    } else {
                        assert(pv(nodes[sb[k] as int]@) != pv(nodes[sa[k] as int]@));
                    }
                }
            }
            assert(sa =~= sb);
        }
    }
}

/// The distinct paths among edge ends, in order of first appearance.
fn node_index(nodes: &Vec<Vec<String>>, p: &Vec<String>) -> (r: Option<usize>)
    ensures
        match r {
            Some(i) => i < nodes@.len() && pv(nodes@[i as int]@) == pv(p@),
            None => forall|i: int| 0 <= i < nodes@.len() ==> pv(#[trigger] nodes@[i]@) != pv(p@),
        },
{
    let mut i: usize = 0;
    while i < nodes.len()
        invariant
            i <= nodes@.len(),
            forall|k: int| 0 <= k < i ==> pv(#[trigger] nodes@[k]@) != pv(p@),
        decreases nodes@.len() - i,
    {
        if path_eq(nodes[i].as_slice(), p.as_slice()) {
            return Some(i);
        }
        i = i + 1;
    }
    None
}

/// Finds the cycles of the directed graph given by `edges`. Each cycle is
/// reported once, as the walk from its first node back to it, and every
/// closed walk in the graph passes a node of some reported cycle, so separate
/// cycles are each reported.
#[verifier::rlimit(60)]
pub fn detect_cycles(kind: CycleKind, edges: &[(Vec<String>, Vec<String>)]) -> (r: Vec<SemanticCycle>)
    ensures
        forall|c: int| 0 <= c < r@.len() ==> (#[trigger] r@[c]).kind == kind && is_closed_walk(edges@, cycle_paths(r@[c]))
            && is_simple(cycle_paths(r@[c])),
        forall|c: int, d: int| 0 <= c < d < r@.len() ==> cycle_paths(r@[c]) != cycle_paths(r@[d]),
        forall|c: int, d: int| 0 <= c < d < r@.len() ==> !same_nodes(cycle_paths(#[trigger] r@[c]), cycle_paths(#[trigger] r@[d])),
        r@.len() == 0 ==> forall|w: Seq<Seq<Seq<char>>>| !#[trigger] is_closed_walk(edges@, w),
        forall|w: Seq<Seq<Seq<char>>>| #[trigger] is_closed_walk(edges@, w) ==> exists|c: int, k: int|
            0 <= c < r@.len() && 0 <= k < w.len() && #[trigger] cycle_paths(r@[c]).contains(w[k]),
{
    // Number the paths and collect each source's successors in edge order.
    let mut nodes: Vec<Vec<String>> = Vec::new();
    let mut is_source: Vec<bool> = Vec::new();
    let mut adj: Vec<Vec<usize>> = Vec::new();
    let mut e: usize = 0;
    while e < edges.len()
        invariant
            e <= edges@.len(),
            nodes@.len() == adj@.len(),
            is_source@.len() == adj@.len(),
            graph_ok(edges@, nodes@, adj@),
            forall|a: int, b: int| 0 <= a < b < nodes@.len() ==> pv(nodes@[a]@) != pv(nodes@[b]@),
            edges_numbered(edges@, nodes@, adj@, e as int),
            forall|a: int| 0 <= a < nodes@.len() && adj@[a]@.len() > 0 ==> #[trigger] is_source@[a],
        decreases edges@.len() - e,
    {
        let ghost nodes_before = nodes@;
        let ghost adj_before = adj@;
        assert(edges_numbered(edges@, nodes_before, adj_before, e as int));
        let src = match node_index(&nodes, &edges[e].0) {
            Some(i) => i,
            None => {
                nodes.push(clone_path(edges[e].0.as_slice()));
                is_source.push(false);
                adj.push(Vec::new());
                proof {
                    assert forall|a: int, j: int|
                        0 <= a < adj@.len() && 0 <= j < adj@[a]@.len() implies #[trigger] adj@[a]@[j] < nodes@.len() && is_edge(
                        edges@, pv(nodes@[a]@), pv(nodes@[adj@[a]@[j] as int]@)) by {
                        assert(a < adj@.len() - 1);
                    }
                }
                nodes.len() - 1
            },
        };
        let tgt = match node_index(&nodes, &edges[e].1) {
            Some(i) => i,
            None => {
                nodes.push(clone_path(edges[e].1.as_slice()));
                is_source.push(false);
                adj.push(Vec::new());
                proof {
                    assert forall|a: int, j: int|
                        0 <= a < adj@.len() && 0 <= j < adj@[a]@.len() implies #[trigger] adj@[a]@[j] < nodes@.len() && is_edge(
                        edges@, pv(nodes@[a]@), pv(nodes@[adj@[a]@[j] as int]@)) by {
                        assert(a < adj@.len() - 1);
                    }
                }
                nodes.len() - 1
            },
        };
        let ghost adj0 = adj@;
        let ghost nodes0 = nodes@;
        proof {
            assert forall|i: int| 0 <= i < e implies exists|a: int, b: int|
                0 <= a < nodes0.len() && 0 <= b < nodes0.len() && pv(nodes0[a]@) == pv(#[trigger] edges@[i].0@) && pv(
                    nodes0[b]@,
                ) == pv(edges@[i].1@) && adj_edge(adj0, a, b) by {
                assert(edges@[i].0@ == edges@[i].0@);
                let (a, b) = choose|a: int, b: int|
                    0 <= a < nodes_before.len() && 0 <= b < nodes_before.len() && pv(nodes_before[a]@) == pv(
                        #[trigger] edges@[i].0@,
                    ) && pv(nodes_before[b]@) == pv(edges@[i].1@) && adj_edge(adj_before, a, b);
                assert(nodes0[a] == nodes_before[a]);
                assert(nodes0[b] == nodes_before[b]);
                assert(adj0[a] == adj_before[a]);
                let jj = choose|jj: int| 0 <= jj < adj_before[a]@.len() && adj_before[a]@[jj] == b;
                assert(adj0[a]@[jj] == b);
                assert(adj_edge(adj0, a, b));
                assert(0 <= a < nodes0.len() && 0 <= b < nodes0.len() && pv(nodes0[a]@) == pv(edges@[i].0@) && pv(
                    nodes0[b]@,
                ) == pv(edges@[i].1@) && adj_edge(adj0, a, b));
            }
        }
        adj[src].push(tgt);
        is_source.set(src, true);
        proof {
            assert(is_edge(edges@, pv(nodes@[src as int]@), pv(nodes@[tgt as int]@)));
            assert forall|i: int| 0 <= i < e + 1 implies exists|a: int, b: int|
                0 <= a < nodes@.len() && 0 <= b < nodes@.len() && pv(nodes@[a]@) == pv(#[trigger] edges@[i].0@) && pv(
                    nodes@[b]@,
                ) == pv(edges@[i].1@) && adj_edge(adj@, a, b) by {
                if i < e {
                    let (a, b) = choose|a: int, b: int|
                        0 <= a < nodes0.len() && 0 <= b < nodes0.len() && pv(nodes0[a]@) == pv(#[trigger] edges@[i].0@)
                            && pv(nodes0[b]@) == pv(edges@[i].1@) && adj_edge(adj0, a, b);
                    let jj = choose|jj: int| 0 <= jj < adj0[a]@.len() && adj0[a]@[jj] == b;
                    if a == src {
                        assert(adj@[a]@[jj] == adj0[a]@[jj]);
                    } else {
                        assert(adj@[a] == adj0[a]);
                    }
                    assert(adj_edge(adj@, a, b));
                    assert(nodes@[a] == nodes0[a] && nodes@[b] == nodes0[b]);
                    assert(0 <= a < nodes@.len() && 0 <= b < nodes@.len() && pv(nodes@[a]@) == pv(edges@[i].0@) && pv(
                        nodes@[b]@,
                    ) == pv(edges@[i].1@) && adj_edge(adj@, a, b));
                } else {
                    assert(adj@[src as int]@[adj0[src as int]@.len() as int] == tgt);
                    assert(adj_edge(adj@, src as int, tgt as int));
                    assert(0 <= src < nodes@.len() && 0 <= tgt < nodes@.len() && pv(nodes@[src as int]@) == pv(
                        edges@[i].0@,
                    ) && pv(nodes@[tgt as int]@) == pv(edges@[i].1@) && adj_edge(adj@, src as int, tgt as int));
                }
            }
            assert forall|a: int| 0 <= a < nodes@.len() && adj@[a]@.len() > 0 implies #[trigger] is_source@[a] by {
                if a != src {
                    assert(adj@[a] == adj0[a]);
                }
            }
            assert(edges_numbered(edges@, nodes@, adj@, (e + 1) as int));
            assert forall|a: int, j: int|
                0 <= a < adj@.len() && 0 <= j < adj@[a]@.len() implies #[trigger] adj@[a]@[j] < nodes@.len() && is_edge(
                edges@, pv(nodes@[a]@), pv(nodes@[adj@[a]@[j] as int]@)) by {
                if a != src {
                    assert(adj@[a] == adj0[a]);
                } else if j < adj0[a]@.len() {
                    assert(adj@[a]@[j] == adj0[a]@[j]);
                }
            }
        }
        e = e + 1;
    }
    // Depth-first search from every source.
    let n = nodes.len();
    let mut active: Vec<bool> = Vec::new();
    let mut completed: Vec<bool> = Vec::new();
    let mut i: usize = 0;
    while i < n
        invariant
            i <= n,
            active@.len() == i,
            completed@.len() == i,
            forall|k: int| 0 <= k < i ==> !active@[k],
            forall|k: int| 0 <= k < i ==> !completed@[k],
        decreases n - i,
    {
        active.push(false);
        completed.push(false);
        i = i + 1;
    }
    let mut stack: Vec<usize> = Vec::new();
    let mut found: Vec<Vec<usize>> = Vec::new();
    let mut rank: Ghost<Seq<int>> = Ghost(Seq::new(n as nat, |x: int| 0int));
    let mut clock: Ghost<int> = Ghost(0int);
    let mut root: usize = 0;
    proof {
        assert(ranked_outside(adj@, completed@, rank@, found@)) by {
            reveal(ranked_outside);
        }
    }
    while root < n
        invariant
            n == nodes@.len(),
            n == adj@.len(),
            is_source@.len() == n,
            graph_ok(edges@, nodes@, adj@),
            edges_numbered(edges@, nodes@, adj@, edges@.len() as int),
            forall|a: int, b: int| 0 <= a < b < nodes@.len() ==> pv(nodes@[a]@) != pv(nodes@[b]@),
            forall|a: int| 0 <= a < n && adj@[a]@.len() > 0 ==> #[trigger] is_source@[a],
            active@.len() == n,
            completed@.len() == n,
            rank@.len() == n,
            forall|k: int| 0 <= k < n ==> !active@[k],
            stack@.len() == 0,
            cycles_ok(n as nat, adj@, found@),
            cycles_placed(completed@, stack@, found@),
            clock_ok(completed@, active@, rank@, clock@),
            ranked_outside(adj@, completed@, rank@, found@),
            forall|k: int| 0 <= k < root && #[trigger] is_source@[k] ==> completed@[k],
        decreases n - root,
    {
        if is_source[root] {
            let ghost c0 = completed@;
            visit(root, &adj, &mut active, &mut completed, &mut stack, &mut found, &mut rank, &mut clock);
            proof {
                assert forall|k: int| 0 <= k < root + 1 && #[trigger] is_source@[k] implies completed@[k] by {
                    if k < root {
                        assert(c0[k]);
                    }
                }
            }
        }
        root = root + 1;
    }
    proof {
        lemma_walks_meet_found(edges@, nodes@, adj@, completed@, rank@, found@, is_source@);
    }
    // Report each cycle by its key paths.
    let mut cycles: Vec<SemanticCycle> = Vec::new();
    let mut c: usize = 0;
    while c < found.len()
        invariant
            c <= found@.len(),
            cycles@.len() == c,
            n == nodes@.len(),
            graph_ok(edges@, nodes@, adj@),
            forall|a: int, b: int| 0 <= a < b < nodes@.len() ==> pv(nodes@[a]@) != pv(nodes@[b]@),
            cycles_ok(n as nat, adj@, found@),
            cycles@.len() == c,
            edges_numbered(edges@, nodes@, adj@, edges@.len() as int),
            walks_meet(edges@, nodes@, found@),
            forall|k: int| 0 <= k < c ==> {
                &&& (#[trigger] cycles@[k]).kind == kind
                &&& cycle_paths(cycles@[k]) == found@[k]@.map_values(|x: usize| pv(nodes@[x as int]@))
            },
        decreases found@.len() - c,
    {
        let walk_nodes = &found[c];
        let mut paths: Vec<Vec<String>> = Vec::new();
        let mut k: usize = 0;
        while k < walk_nodes.len()
            invariant
                k <= walk_nodes@.len(),
                walk_nodes@ == found@[c as int]@,
                forall|q: int| 0 <= q < walk_nodes@.len() ==> walk_nodes@[q] < nodes@.len(),
                paths@.len() == k,
                forall|q: int| 0 <= q < k ==> pv((#[trigger] paths@[q])@) == pv(nodes@[walk_nodes@[q] as int]@),
            decreases walk_nodes@.len() - k,
        {
            paths.push(clone_path(nodes[walk_nodes[k]].as_slice()));
            k = k + 1;
        }
        let cycle = SemanticCycle { kind, paths };
        assert(cycle_paths(cycle) =~= found@[c as int]@.map_values(|x: usize| pv(nodes@[x as int]@)));
        cycles.push(cycle);
        c = c + 1;
    }
    proof {
        lemma_walks_meet_cycles(edges@, nodes@, adj@, found@, cycles@);
        lemma_reported_cycles(kind, edges@, nodes@, adj@, found@, cycles@);
    }
    cycles
}

} // verus!
