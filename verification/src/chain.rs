//! The inheritance chain of a table: its parents, then theirs, depth first.
use vstd::prelude::*;

use crate::paths::{clone_path, path_eq, pv};
use crate::semantic::{Definition, SemanticIndex};

verus! {

/// The key paths of a list of paths, as a set.
pub open spec fn path_set(list: Seq<Vec<String>>) -> Set<Seq<Seq<char>>> {
    list.map_values(|p: Vec<String>| pv(p@)).to_set()
}

/// The position of the definition an inheritance edge names as parent.
pub open spec fn edge_parent(index: SemanticIndex, e: int) -> Option<int> {
    match index.inheritance@[e].parent {
        Some(id) => if id.0 < index.definitions@.len() {
            Some(id.0 as int)
        } else {
            None
        },
        None => None,
    }
}

/// Walks the edges from `e` on whose child is `child`: each parent path not
/// yet visited is marked visited and, where it names a definition, that
/// definition is listed and its own parents walked right after it. Yields
/// the listed positions and the visited paths. `fuel` bounds the depth.
pub open spec fn walk(
    index: SemanticIndex,
    child: Seq<Seq<char>>,
    e: int,
    visited: Set<Seq<Seq<char>>>,
    fuel: nat,
) -> (Seq<int>, Set<Seq<Seq<char>>>)
    decreases fuel, index.inheritance@.len() - e,
{
    if fuel == 0 || e < 0 || e >= index.inheritance@.len() {
        (Seq::empty(), visited)
    } else {
        let edge = index.inheritance@[e];
        let parent = pv(edge.parent_path@);
        if pv(edge.child_path@) != child || visited.contains(parent) {
            walk(index, child, e + 1, visited, fuel)
        } else {
            match edge_parent(index, e) {
                Some(p) => {
                    let inner = walk(index, parent, 0, visited.insert(parent), (fuel - 1) as nat);
                    let rest = walk(index, child, e + 1, inner.1, fuel);
                    (seq![p] + inner.0 + rest.0, rest.1)
                },
                None => walk(index, child, e + 1, visited.insert(parent), fuel),
            }
        }
    }
}

/// Depth allowed to the walk: one more than there are edges.
pub open spec fn chain_fuel(index: SemanticIndex) -> nat {
    (index.inheritance@.len() + 1) as nat
}

/// Positions of the inherited parents of `child`, in priority order; the
/// walk starts with `child` itself visited, so a cycle back to it is left out.
pub open spec fn chain_positions(index: SemanticIndex, child: Seq<Seq<char>>) -> Seq<int> {
    walk(index, child, 0, Set::empty().insert(child), chain_fuel(index)).0
}

/// Every parent path that some edge names.
pub open spec fn parent_paths(index: SemanticIndex) -> Set<Seq<Seq<char>>> {
    index.inheritance@.map_values(|edge: crate::semantic::InheritanceEdge| pv(edge.parent_path@)).to_set()
}

/// How many parent paths are not yet visited.
pub open spec fn unvisited(index: SemanticIndex, visited: Set<Seq<Seq<char>>>) -> nat {
    parent_paths(index).difference(visited).len()
}

proof fn lemma_parent_paths(index: SemanticIndex, e: int)
    requires
        0 <= e < index.inheritance@.len(),
    ensures
        parent_paths(index).finite(),
        parent_paths(index).contains(pv(index.inheritance@[e].parent_path@)),
        parent_paths(index).len() <= index.inheritance@.len(),
{
    let s = index.inheritance@.map_values(|edge: crate::semantic::InheritanceEdge| pv(edge.parent_path@));
    assert(s[e] == pv(index.inheritance@[e].parent_path@));
    s.lemma_cardinality_of_set();
    vstd::seq_lib::seq_to_set_is_finite(s);
}

proof fn lemma_unvisited_shrinks(index: SemanticIndex, visited: Set<Seq<Seq<char>>>, p: Seq<Seq<char>>)
    requires
        parent_paths(index).finite(),
        parent_paths(index).contains(p),
        !visited.contains(p),
    ensures
        unvisited(index, visited.insert(p)) + 1 == unvisited(index, visited),
{
    let all = parent_paths(index);
    assert(all.difference(visited.insert(p)) =~= all.difference(visited).remove(p));
}

proof fn lemma_unvisited_monotone(index: SemanticIndex, a: Set<Seq<Seq<char>>>, b: Set<Seq<Seq<char>>>)
    requires
        parent_paths(index).finite(),
        a.subset_of(b),
    ensures
        unvisited(index, b) <= unvisited(index, a),
{
    let all = parent_paths(index);
    vstd::set_lib::lemma_len_subset(all.difference(b), all.difference(a));
}

/// With more depth than there are unvisited parent paths the walk never
/// runs out: any larger depth gives the same result. It only adds visited
/// paths, each of them a parent path.
pub proof fn lemma_walk_fuel(
    index: SemanticIndex,
    child: Seq<Seq<char>>,
    e: int,
    visited: Set<Seq<Seq<char>>>,
    f1: nat,
    f2: nat,
)
    requires
        0 <= e,
        unvisited(index, visited) < f1 <= f2,
    ensures
        walk(index, child, e, visited, f1) == walk(index, child, e, visited, f2),
        visited.subset_of(walk(index, child, e, visited, f1).1),
        walk(index, child, e, visited, f1).1.subset_of(visited.union(parent_paths(index))),
    decreases f1, index.inheritance@.len() - e,
{
    if e < index.inheritance@.len() {
        lemma_parent_paths(index, e);
        let edge = index.inheritance@[e];
        let parent = pv(edge.parent_path@);
        if pv(edge.child_path@) != child || visited.contains(parent) {
            lemma_walk_fuel(index, child, e + 1, visited, f1, f2);
        } else {
            let v1 = visited.insert(parent);
            lemma_unvisited_shrinks(index, visited, parent);
            match edge_parent(index, e) {
                Some(p) => {
                    lemma_walk_fuel(index, parent, 0, v1, (f1 - 1) as nat, (f2 - 1) as nat);
                    let inner = walk(index, parent, 0, v1, (f1 - 1) as nat);
                    lemma_unvisited_monotone(index, visited, inner.1);
                    lemma_walk_fuel(index, child, e + 1, inner.1, f1, f2);
                },
                None => {
                    lemma_walk_fuel(index, child, e + 1, v1, f1, f2);
                },
            }
        }
    }
}

/// Every listed position names a definition.
pub proof fn lemma_walk_positions(
    index: SemanticIndex,
    child: Seq<Seq<char>>,
    e: int,
    visited: Set<Seq<Seq<char>>>,
    fuel: nat,
)
    ensures
        forall|k: int|
            0 <= k < walk(index, child, e, visited, fuel).0.len() ==> 0 <= #[trigger] walk(
                index,
                child,
                e,
                visited,
                fuel,
            ).0[k] < index.definitions@.len(),
    decreases fuel, index.inheritance@.len() - e,
{
    if fuel > 0 && 0 <= e < index.inheritance@.len() {
        let edge = index.inheritance@[e];
        let parent = pv(edge.parent_path@);
        if pv(edge.child_path@) != child || visited.contains(parent) {
            lemma_walk_positions(index, child, e + 1, visited, fuel);
            assert(walk(index, child, e, visited, fuel) == walk(index, child, e + 1, visited, fuel));
        } else {
            match edge_parent(index, e) {
                Some(p) => {
                    let inner = walk(index, parent, 0, visited.insert(parent), (fuel - 1) as nat);
                    lemma_walk_positions(index, parent, 0, visited.insert(parent), (fuel - 1) as nat);
                    lemma_walk_positions(index, child, e + 1, inner.1, fuel);
                    let rest = walk(index, child, e + 1, inner.1, fuel);
                    let all = seq![p] + inner.0 + rest.0;
                    assert(walk(index, child, e, visited, fuel).0 == all);
                    assert forall|k: int| 0 <= k < all.len() implies 0 <= #[trigger] all[k]
                        < index.definitions@.len() by {
                        if k >= 1 + inner.0.len() {
                            assert(all[k] == rest.0[k - 1 - inner.0.len()]);
                        } else if k >= 1 {
                            assert(all[k] == inner.0[k - 1]);
                        }
                    }
                },
                None => {
                    lemma_walk_positions(index, child, e + 1, visited.insert(parent), fuel);
                    assert(walk(index, child, e, visited, fuel) == walk(
                        index,
                        child,
                        e + 1,
                        visited.insert(parent),
                        fuel,
                    ));
                },
            }
        }
    }
}

/// The chain is the walk at any depth beyond the number of edges.
pub proof fn lemma_chain_depth_enough(index: SemanticIndex, child: Seq<Seq<char>>, fuel: nat)
    requires
        fuel >= chain_fuel(index),
    ensures
        chain_positions(index, child) == walk(index, child, 0, Set::empty().insert(child), fuel).0,
{
    if index.inheritance@.len() > 0 {
        lemma_parent_paths(index, 0);
    } else {
        assert(parent_paths(index) =~= Set::empty());
    }
    assert(parent_paths(index).difference(Set::empty()) =~= parent_paths(index));
    lemma_unvisited_monotone(index, Set::empty(), Set::empty().insert(child));
    lemma_walk_fuel(index, child, 0, Set::empty().insert(child), chain_fuel(index), fuel);
}

/// The key path of the definition at position `p`.
pub open spec fn path_at(index: SemanticIndex, p: int) -> Seq<Seq<char>> {
    pv(index.definitions@[p].path@)
}

/// Each inheritance edge names as parent the last definition of its parent path.
pub open spec fn parents_resolved(index: SemanticIndex) -> bool {
    &&& crate::semantic::ids_are_positions(index.definitions@)
    &&& forall|e: int|
        0 <= e < index.inheritance@.len() ==> (#[trigger] index.inheritance@[e]).parent
            == crate::semantic::id_for_path(index.definitions@, pv(index.inheritance@[e].parent_path@))
}

proof fn lemma_edge_parent_path(index: SemanticIndex, e: int)
    requires
        parents_resolved(index),
        0 <= e < index.inheritance@.len(),
    ensures
        edge_parent(index, e) matches Some(p) ==> path_at(index, p) == pv(index.inheritance@[e].parent_path@),
{
    let defs = index.definitions@;
    let path = pv(index.inheritance@[e].parent_path@);
    crate::semantic::lemma_last_with_path(defs, path, defs.len() as int);
}

/// An index built from a document names its parents this way.
pub proof fn lemma_built_parents_resolved(src: Seq<u8>, index: SemanticIndex)
    requires
        crate::built_index(src, index),
    ensures
        parents_resolved(index),
{
}

/// The walk lists each table at most once: the paths it lists are new to
/// the visited paths it starts from, pairwise different, and visited
/// afterwards.
pub proof fn lemma_walk_lists_once(
    index: SemanticIndex,
    child: Seq<Seq<char>>,
    e: int,
    visited: Set<Seq<Seq<char>>>,
    fuel: nat,
)
    requires
        parents_resolved(index),
        0 <= e,
    ensures
        visited.subset_of(walk(index, child, e, visited, fuel).1),
        forall|k: int|
            0 <= k < walk(index, child, e, visited, fuel).0.len() ==> !visited.contains(
                path_at(index, #[trigger] walk(index, child, e, visited, fuel).0[k]),
            ) && walk(index, child, e, visited, fuel).1.contains(path_at(index, walk(index, child, e, visited, fuel).0[k])),
        forall|i: int, j: int|
            0 <= i < j < walk(index, child, e, visited, fuel).0.len() ==> path_at(
                index,
                #[trigger] walk(index, child, e, visited, fuel).0[i],
            ) != path_at(index, #[trigger] walk(index, child, e, visited, fuel).0[j]),
    decreases fuel, index.inheritance@.len() - e,
{
    if fuel > 0 && e < index.inheritance@.len() {
        let edge = index.inheritance@[e];
        let parent = pv(edge.parent_path@);
        if pv(edge.child_path@) != child || visited.contains(parent) {
            lemma_walk_lists_once(index, child, e + 1, visited, fuel);
            assert(walk(index, child, e, visited, fuel) == walk(index, child, e + 1, visited, fuel));
        } else {
            let v1 = visited.insert(parent);
            lemma_edge_parent_path(index, e);
            match edge_parent(index, e) {
                Some(p) => {
                    let inner = walk(index, parent, 0, v1, (fuel - 1) as nat);
                    let rest = walk(index, child, e + 1, inner.1, fuel);
                    lemma_walk_lists_once(index, parent, 0, v1, (fuel - 1) as nat);
                    lemma_walk_lists_once(index, child, e + 1, inner.1, fuel);
                    let all = seq![p] + inner.0 + rest.0;
                    assert(walk(index, child, e, visited, fuel) == (all, rest.1));
                    let n = inner.0.len() as int;
                    assert forall|k: int| 0 <= k < all.len() implies !visited.contains(
                        path_at(index, #[trigger] all[k]),
                    ) && rest.1.contains(path_at(index, all[k])) by {
                        if k == 0 {
                            assert(all[k] == p);
                        } else if k <= n {
                            assert(all[k] == inner.0[k - 1]);
                        } else {
                            assert(all[k] == rest.0[k - 1 - n]);
                        }
                    }
                    assert forall|i: int, j: int| 0 <= i < j < all.len() implies path_at(index, #[trigger] all[i])
                        != path_at(index, #[trigger] all[j]) by {
                        if i == 0 {
                            assert(all[i] == p);
                            if j <= n {
                                assert(all[j] == inner.0[j - 1]);
                            } else {
                                assert(all[j] == rest.0[j - 1 - n]);
                            }
                        } else if i <= n {
                            assert(all[i] == inner.0[i - 1]);
                            if j <= n {
                                assert(all[j] == inner.0[j - 1]);
                            } else {
                                assert(all[j] == rest.0[j - 1 - n]);
                            }
                        } else {
                            assert(all[i] == rest.0[i - 1 - n]);
                            assert(all[j] == rest.0[j - 1 - n]);
                        }
                    }
                },
                None => {
                    lemma_walk_lists_once(index, child, e + 1, v1, fuel);
                    assert(walk(index, child, e, visited, fuel) == walk(index, child, e + 1, v1, fuel));
                },
            }
        }
    }
}

/// The inheritance chain names each parent table once and never the child
/// itself: repeated parents and cycles are left out.
pub proof fn lemma_chain_lists_once(index: SemanticIndex, child: Seq<Seq<char>>)
    requires
        parents_resolved(index),
    ensures
        forall|i: int, j: int|
            0 <= i < j < chain_positions(index, child).len() ==> path_at(
                index,
                #[trigger] chain_positions(index, child)[i],
            ) != path_at(index, #[trigger] chain_positions(index, child)[j]),
        forall|k: int|
            0 <= k < chain_positions(index, child).len() ==> path_at(index, #[trigger] chain_positions(index, child)[k])
                != child,
{
    lemma_walk_lists_once(index, child, 0, Set::empty().insert(child), chain_fuel(index));
}


pub fn path_listed(list: &Vec<Vec<String>>, p: &[String]) -> (r: bool)
    ensures
        r == path_set(list@).contains(pv(p@)),
{
    let ghost m = list@.map_values(|q: Vec<String>| pv(q@));
    let mut i: usize = 0;
    while i < list.len()
        invariant
            i <= list@.len(),
            m == list@.map_values(|q: Vec<String>| pv(q@)),
            forall|k: int| 0 <= k < i ==> m[k] != pv(p@),
        decreases list@.len() - i,
    {
        if path_eq(list[i].as_slice(), p) {
            assert(m[i as int] == pv(p@));
            return true;
        }
        i = i + 1;
    }
    false
}

fn walk_exec(
    index: &SemanticIndex,
    child: &[String],
    visited: &mut Vec<Vec<String>>,
    result: &mut Vec<usize>,
    Ghost(fuel): Ghost<nat>,
)
    requires
        unvisited(*index, path_set(old(visited)@)) < fuel,
    ensures
        final(result)@.map_values(|i: usize| i as int) == old(result)@.map_values(|i: usize| i as int) + walk(
            *index,
            pv(child@),
            0,
            path_set(old(visited)@),
            fuel,
        ).0,
        path_set(final(visited)@) == walk(*index, pv(child@), 0, path_set(old(visited)@), fuel).1,
    decreases fuel,
{
    let ghost c = pv(child@);
    let ghost v0 = path_set(visited@);
    let ghost r0 = result@.map_values(|i: usize| i as int);
    let mut e: usize = 0;
    while e < index.inheritance.len()
        invariant
            unvisited(*index, path_set(visited@)) < fuel,
            c == pv(child@),
            e <= index.inheritance@.len(),
            r0 + walk(*index, c, 0, v0, fuel).0 == result@.map_values(|i: usize| i as int) + walk(
                *index,
                c,
                e as int,
                path_set(visited@),
                fuel,
            ).0,
            walk(*index, c, 0, v0, fuel).1 == walk(*index, c, e as int, path_set(visited@), fuel).1,
        decreases index.inheritance@.len() - e,
    {
        let edge = &index.inheritance[e];
        let ghost vs = path_set(visited@);
        let ghost rs = result@.map_values(|i: usize| i as int);
        proof {
            lemma_parent_paths(*index, e as int);
        }
        if path_eq(edge.child_path.as_slice(), child) && !path_listed(visited, edge.parent_path.as_slice()) {
            let ghost parent = pv(edge.parent_path@);
            let ghost before = visited@;
            let copy = clone_path(edge.parent_path.as_slice());
            visited.push(copy);
            proof {
                assert(visited@.map_values(|q: Vec<String>| pv(q@)) =~= vs_map(before).push(parent));
                vs_map(before).lemma_push_to_set_commute(parent);
                assert(path_set(visited@) =~= vs.insert(parent));
                lemma_unvisited_shrinks(*index, vs, parent);
            }
            let target = match edge.parent {
                Some(id) => if id.0 < index.definitions.len() {
                    Some(id.0)
                } else {
                    None
                },
                None => None,
            };
            if let Some(p) = target {
                result.push(p);
                proof {
                    assert(result@.map_values(|i: usize| i as int) =~= rs.push(p as int));
                }
                walk_exec(index, edge.parent_path.as_slice(), visited, result, Ghost((fuel - 1) as nat));
                proof {
                    let inner = walk(*index, parent, 0, vs.insert(parent), (fuel - 1) as nat);
                    let rest = walk(*index, c, e + 1, inner.1, fuel);
                    lemma_walk_fuel(*index, parent, 0, vs.insert(parent), (fuel - 1) as nat, (fuel - 1) as nat);
                    lemma_unvisited_monotone(*index, vs, inner.1);
                    assert(result@.map_values(|i: usize| i as int) =~= rs.push(p as int) + inner.0);
                    assert(rs + (seq![p as int] + inner.0 + rest.0) =~= rs.push(p as int) + inner.0 + rest.0);
                }
            }
        }
        e = e + 1;
    }
}

spec fn vs_map(v: Seq<Vec<String>>) -> Seq<Seq<Seq<char>>> {
    v.map_values(|q: Vec<String>| pv(q@))
}

impl SemanticIndex {
    /// Return all inherited parent definitions in declaration priority order.
    /// Transitive parents follow their direct child; repeated parents and
    /// cycles are omitted.
    pub fn inheritance_chain(&self, child_path: &[String]) -> (r: Vec<&Definition>)
        ensures
            forall|k: int| 0 <= k < chain_positions(*self, pv(child_path@)).len() ==> 0 <= #[trigger] chain_positions(
                *self,
                pv(child_path@),
            )[k] < self.definitions@.len(),
            r@.map_values(|d: &Definition| *d) == chain_positions(*self, pv(child_path@)).map_values(
                |i: int| self.definitions@[i],
            ),
    {
        let mut visited: Vec<Vec<String>> = Vec::new();
        visited.push(clone_path(child_path));
        let mut positions: Vec<usize> = Vec::new();
        proof {
            assert(vs_map(visited@) =~= seq![pv(child_path@)]);
            assert forall|q: Seq<Seq<char>>| path_set(visited@).contains(q) == Set::empty().insert(pv(child_path@)).contains(q) by {
                assert(vs_map(visited@)[0] == pv(child_path@));
                if vs_map(visited@).contains(q) {
                    assert(q == pv(child_path@));
                }
            }
            assert(path_set(visited@) =~= Set::empty().insert(pv(child_path@)));
            if self.inheritance@.len() > 0 {
                lemma_parent_paths(*self, 0);
            } else {
                assert(parent_paths(*self) =~= Set::empty());
            }
            assert(parent_paths(*self).difference(Set::empty()) =~= parent_paths(*self));
            lemma_unvisited_monotone(*self, Set::empty(), Set::empty().insert(pv(child_path@)));
        }
        walk_exec(self, child_path, &mut visited, &mut positions, Ghost(chain_fuel(*self)));
        let ghost chain = chain_positions(*self, pv(child_path@));
        proof {
            lemma_walk_positions(*self, pv(child_path@), 0, Set::empty().insert(pv(child_path@)), chain_fuel(*self));
            assert(positions@.map_values(|i: usize| i as int) =~= chain);
            assert forall|j: int| 0 <= j < positions@.len() implies positions@[j] < self.definitions@.len() by {
                assert(positions@.map_values(|i: usize| i as int)[j] == chain[j]);
            }
        }
        let mut r: Vec<&Definition> = Vec::new();
        let mut k: usize = 0;
        while k < positions.len()
            invariant
                k <= positions@.len(),
                positions@.map_values(|i: usize| i as int) == chain,
                forall|j: int| 0 <= j < positions@.len() ==> positions@[j] < self.definitions@.len(),
                r@.map_values(|d: &Definition| *d) == chain.subrange(0, k as int).map_values(
                    |i: int| self.definitions@[i],
                ),
            decreases positions@.len() - k,
        {
            assert(positions@.map_values(|i: usize| i as int)[k as int] == chain[k as int]);
            let ghost old_r = r@;
            let d = &self.definitions[positions[k]];
            r.push(d);
            proof {
                assert(chain.subrange(0, k + 1) =~= chain.subrange(0, k as int).push(chain[k as int]));
                assert(*d == self.definitions@[chain[k as int]]);
                assert(r@.map_values(|d: &Definition| *d) =~= old_r.map_values(|d: &Definition| *d).push(*d));
                assert(r@.map_values(|d: &Definition| *d) =~= chain.subrange(0, k + 1).map_values(
                    |i: int| self.definitions@[i],
                ));
            }
            k = k + 1;
        }
        assert(chain.subrange(0, k as int) =~= chain);
        r
    }
}

} // verus!
