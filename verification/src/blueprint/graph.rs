//! Reachability and cycle analysis of execution graphs given as edge lists.

use std::collections::HashSet;
use vstd::prelude::*;
use vstd::set_lib::lemma_len_subset;

verus! {

broadcast use vstd::std_specs::hash::group_hash_axioms;

/// A directed edge between two node ids.
pub type Edge = (u64, u64);

/// Whether `w` is a walk (one or more nodes, each consecutive pair an edge).
pub open spec fn is_walk(edges: Seq<Edge>, w: Seq<u64>) -> bool {
    w.len() >= 1 && forall|i: int|
        0 <= i < w.len() - 1 ==> #[trigger] edges.contains((w[i], w[i + 1]))
}

/// Whether a walk leads from `a` to `b` (every node reaches itself).
pub open spec fn reaches(edges: Seq<Edge>, a: u64, b: u64) -> bool {
    exists|w: Seq<u64>| is_walk(edges, w) && w[0] == a && w.last() == b
}

/// Whether some source reaches `x`.
pub open spec fn reachable(edges: Seq<Edge>, sources: Seq<u64>, x: u64) -> bool {
    exists|s: u64| #[trigger] sources.contains(s) && reaches(edges, s, x)
}

/// Whether `u` lies on a cycle: a walk of at least one edge leads from `u` back to `u`.
pub open spec fn on_cycle(edges: Seq<Edge>, u: u64) -> bool {
    exists|w: Seq<u64>| is_walk(edges, w) && w.len() >= 2 && w[0] == u && w.last() == u
}

/// Whether a cycle is reachable from `v`.
pub open spec fn reaches_cycle(edges: Seq<Edge>, v: u64) -> bool {
    exists|u: u64| reaches(edges, v, u) && #[trigger] on_cycle(edges, u)
}

/// Whether a set contains the targets of all edges leaving it.
pub open spec fn closed_under(edges: Seq<Edge>, s: Set<u64>) -> bool {
    forall|k: int| 0 <= k < edges.len() && s.contains(#[trigger] edges[k].0) ==> s.contains(edges[k].1)
}

/// Every node a walk from inside a closed set visits is inside it.
proof fn lemma_closed_walk(edges: Seq<Edge>, s: Set<u64>, w: Seq<u64>)
    requires
        closed_under(edges, s),
        is_walk(edges, w),
        s.contains(w[0]),
    ensures
        s.contains(w.last()),
    decreases w.len(),
{
    if w.len() > 1 {
        let v = w.drop_last();
        assert(is_walk(edges, v)) by {
            assert forall|i: int| 0 <= i < v.len() - 1 implies #[trigger] edges.contains(
                (v[i], v[i + 1]),
            ) by {
                assert(edges.contains((w[i], w[i + 1])));
            }
        }
        lemma_closed_walk(edges, s, v);
        let i = w.len() - 2;
        assert(edges.contains((w[i], w[i + 1])));
        let k = choose|k: int| 0 <= k < edges.len() && #[trigger] edges[k] == (w[i], w[i + 1]);
        assert(s.contains(edges[k].0));
    }
}

/// Extends a walk by one edge.
proof fn lemma_walk_push(edges: Seq<Edge>, w: Seq<u64>, b: u64)
    requires
        is_walk(edges, w),
        edges.contains((w.last(), b)),
    ensures
        is_walk(edges, w.push(b)),
        w.push(b)[0] == w[0],
        w.push(b).last() == b,
{
    let v = w.push(b);
    assert forall|i: int| 0 <= i < v.len() - 1 implies #[trigger] edges.contains((v[i], v[i + 1])) by {
        if i < w.len() - 1 {
            assert(edges.contains((w[i], w[i + 1])));
        }
    }
}

/// Every node reachable from the sources, computed by growing the set of reached nodes
/// until no edge leaves it.
pub fn reachable_set(edges: &Vec<Edge>, sources: &Vec<u64>) -> (r: HashSet<u64>)
    ensures
        forall|x: u64| r@.contains(x) <==> reachable(edges@, sources@, x),
{
    let ghost universe = sources@.to_set().union(edges@.map_values(|e: Edge| e.1).to_set());
    let mut set: HashSet<u64> = HashSet::new();
    let mut i: usize = 0;
    while i < sources.len()
        invariant
            i <= sources@.len(),
            forall|x: u64| set@.contains(x) <==> sources@.take(i as int).contains(x),
            set@.finite(),
        decreases sources@.len() - i,
    {
        set.insert(sources[i]);
        proof {
            assert forall|x: u64| set@.contains(x) <==> sources@.take(i + 1).contains(x) by {
                if sources@.take(i + 1).contains(x) {
                    let j = choose|j: int| 0 <= j < i + 1 && #[trigger] sources@.take(i + 1)[j] == x;
                    if j < i {
                        assert(sources@.take(i as int)[j] == x);
                    }
                }
                if sources@.take(i as int).contains(x) {
                    let j = choose|j: int| 0 <= j < i && #[trigger] sources@.take(i as int)[j] == x;
                    assert(sources@.take(i + 1)[j] == x);
                }
                if x == sources@[i as int] {
                    assert(sources@.take(i + 1)[i as int] == x);
                }
            }
        }
        i = i + 1;
    }
    assert(sources@.take(i as int) =~= sources@);
    proof {
        vstd::seq_lib::seq_to_set_is_finite(sources@);
        vstd::seq_lib::seq_to_set_is_finite(edges@.map_values(|e: Edge| e.1));
        assert forall|x: u64| set@.contains(x) implies reachable(edges@, sources@, x) by {
            let w = seq![x];
            assert(is_walk(edges@, w));
            assert(w[0] == x && w.last() == x);
            assert(reaches(edges@, x, x));
            assert(sources@.contains(x));
        }
        assert(set@.subset_of(universe));
    }
    let mut changed = true;
    while changed
        invariant
            set@.finite(),
            universe.finite(),
            universe == sources@.to_set().union(edges@.map_values(|e: Edge| e.1).to_set()),
            set@.subset_of(universe),
            forall|s: u64| sources@.contains(s) ==> set@.contains(s),
            forall|x: u64| set@.contains(x) ==> reachable(edges@, sources@, x),
            !changed ==> closed_under(edges@, set@),
        decreases universe.len() - set@.len() + (if changed {
            1int
        } else {
            0int
        }),
    {
        changed = false;
        let ghost start_len = set@.len();
        let mut k: usize = 0;
        while k < edges.len()
            invariant
                k <= edges@.len(),
                set@.finite(),
                universe.finite(),
                universe == sources@.to_set().union(edges@.map_values(|e: Edge| e.1).to_set()),
                set@.subset_of(universe),
                forall|s: u64| sources@.contains(s) ==> set@.contains(s),
                forall|x: u64| set@.contains(x) ==> reachable(edges@, sources@, x),
                !changed ==> forall|j: int|
                    0 <= j < k && set@.contains(#[trigger] edges@[j].0) ==> set@.contains(
                        edges@[j].1,
                    ),
                changed ==> set@.len() > start_len,
                !changed ==> set@.len() == start_len,
            decreases edges@.len() - k,
        {
            let (a, b) = edges[k];
            assert(edges@[k as int] == (a, b));
            let ghost before = set@;
            if set.contains(&a) && !set.contains(&b) {
                proof {
                    assert(edges@[k as int] == (a, b));
                    assert(edges@.contains((a, b)));
                    let s = choose|s: u64| #[trigger] sources@.contains(s) && reaches(edges@, s, a);
                    let w = choose|w: Seq<u64>| is_walk(edges@, w) && w[0] == s && w.last() == a;
                    lemma_walk_push(edges@, w, b);
                    assert(reaches(edges@, s, b));
                    assert(edges@.map_values(|e: Edge| e.1)[k as int] == b);
                    assert(universe.contains(b));
                }
                set.insert(b);
                changed = true;
            }
            proof {
                if !changed {
                    assert forall|j: int|
                        0 <= j < k + 1 && set@.contains(#[trigger] edges@[j].0) implies set@.contains(
                        edges@[j].1,
                    ) by {}
                }
            }
            k = k + 1;
        }
        proof {
            lemma_len_subset(set@, universe);
        }
    }
    proof {
        assert forall|x: u64| reachable(edges@, sources@, x) implies set@.contains(x) by {
            let s = choose|s: u64| #[trigger] sources@.contains(s) && reaches(edges@, s, x);
            let w = choose|w: Seq<u64>| is_walk(edges@, w) && w[0] == s && w.last() == x;
            lemma_closed_walk(edges@, set@, w);
        }
    }
    set
}


/// A contiguous piece of a walk is a walk.
proof fn lemma_subwalk(edges: Seq<Edge>, w: Seq<u64>, i: int, j: int)
    requires
        is_walk(edges, w),
        0 <= i < j <= w.len(),
    ensures
        is_walk(edges, w.subrange(i, j)),
{
    let v = w.subrange(i, j);
    assert forall|k: int| 0 <= k < v.len() - 1 implies #[trigger] edges.contains((v[k], v[k + 1])) by {
        assert(edges.contains((w[i + k], w[i + k + 1])));
    }
}

/// A sequence longer than a finite set it lies in repeats an element.
proof fn lemma_pigeonhole(w: Seq<u64>, a: Set<u64>)
    requires
        a.finite(),
        w.len() > a.len(),
        forall|i: int| 0 <= i < w.len() ==> a.contains(#[trigger] w[i]),
    ensures
        exists|i: int, j: int| 0 <= i < j < w.len() && w[i] == w[j],
{
    if !(exists|i: int, j: int| 0 <= i < j < w.len() && w[i] == w[j]) {
        assert(w.no_duplicates()) by {
            assert forall|i: int, j: int| 0 <= i < w.len() && 0 <= j < w.len() && i != j implies w[i]
                != w[j] by {
                if i < j {
                    assert(!(w[i] == w[j]));
                } else {
                    assert(!(w[j] == w[i]));
                }
            }
        }
        w.unique_seq_to_set();
        assert(w.to_set().subset_of(a));
        lemma_len_subset(w.to_set(), a);
    }
}

/// Facts about a set built by peeling: every member's successors are members of smaller rank.
pub open spec fn ranked(edges: Seq<Edge>, s: Set<u64>, rank: Map<u64, nat>) -> bool {
    forall|u: u64|
        #[trigger] s.contains(u) ==> rank.contains_key(u) && forall|j: int|
            0 <= j < edges.len() && (#[trigger] edges[j]).0 == u ==> s.contains(edges[j].1)
                && rank.contains_key(edges[j].1) && rank[edges[j].1] < rank[u]
}

/// Along a walk that starts in a ranked set the walk stays in it and ranks strictly fall.
proof fn lemma_ranked_walk(edges: Seq<Edge>, s: Set<u64>, rank: Map<u64, nat>, w: Seq<u64>)
    requires
        ranked(edges, s, rank),
        is_walk(edges, w),
        s.contains(w[0]),
    ensures
        s.contains(w.last()),
        rank[w.last()] + w.len() - 1 <= rank[w[0]],
    decreases w.len(),
{
    if w.len() > 1 {
        let v = w.drop_last();
        lemma_subwalk(edges, w, 0, w.len() - 1);
        assert(v =~= w.subrange(0, w.len() - 1));
        lemma_ranked_walk(edges, s, rank, v);
        let i = w.len() - 2;
        assert(edges.contains((w[i], w[i + 1])));
        let k = choose|k: int| 0 <= k < edges.len() && #[trigger] edges[k] == (w[i], w[i + 1]);
        assert(edges[k].0 == v.last());
    }
}

/// Whether an edge leads from `u` to `w` and `w` lies outside `s`.
spec fn steps_out(edges: Seq<Edge>, s: Set<u64>, u: u64, w: u64) -> bool {
    !s.contains(w) && exists|j: int| 0 <= j < edges.len() && #[trigger] edges[j] == (u, w)
}

/// A successor outside the set that the peeling could not remove a node for.
spec fn stuck_successor(edges: Seq<Edge>, s: Set<u64>, u: u64) -> u64 {
    choose|w: u64| #[trigger] steps_out(edges, s, u, w)
}

/// A walk of `n` edges through nodes the peeling could not remove.
spec fn stuck_walk(edges: Seq<Edge>, s: Set<u64>, u: u64, n: nat) -> Seq<u64>
    decreases n,
{
    if n == 0 {
        seq![u]
    } else {
        seq![u] + stuck_walk(edges, s, stuck_successor(edges, s, u), (n - 1) as nat)
    }
}

/// Nodes of `all` outside `s` each have an edge to a node of `all` outside `s`.
spec fn stuck(edges: Seq<Edge>, s: Set<u64>, all: Set<u64>) -> bool {
    forall|u: u64|
        all.contains(u) && !s.contains(u) ==> exists|j: int|
            0 <= j < edges.len() && (#[trigger] edges[j]).0 == u && !s.contains(edges[j].1)
                && all.contains(edges[j].1)
}

proof fn lemma_stuck_walk(edges: Seq<Edge>, s: Set<u64>, all: Set<u64>, u: u64, n: nat)
    requires
        stuck(edges, s, all),
        forall|j: int| 0 <= j < edges.len() ==> all.contains(#[trigger] edges[j].1),
        all.contains(u),
        !s.contains(u),
    ensures
        is_walk(edges, stuck_walk(edges, s, u, n)),
        stuck_walk(edges, s, u, n).len() == n + 1,
        stuck_walk(edges, s, u, n)[0] == u,
        forall|i: int|
            0 <= i < n + 1 ==> all.contains(#[trigger] stuck_walk(edges, s, u, n)[i]),
    decreases n,
{
    if n > 0 {
        let j0 = choose|j: int|
            0 <= j < edges.len() && (#[trigger] edges[j]).0 == u && !s.contains(edges[j].1)
                && all.contains(edges[j].1);
        assert(edges[j0] == (u, edges[j0].1));
        assert(steps_out(edges, s, u, edges[j0].1));
        let v = stuck_successor(edges, s, u);
        assert(steps_out(edges, s, u, v));
        let j1 = choose|j: int| 0 <= j < edges.len() && #[trigger] edges[j] == (u, v);
        assert(all.contains(edges[j1].1));
        lemma_stuck_walk(edges, s, all, v, (n - 1) as nat);
        let rest = stuck_walk(edges, s, v, (n - 1) as nat);
        let w = stuck_walk(edges, s, u, n);
        assert(w == seq![u] + rest);
        assert forall|i: int| 0 <= i < w.len() - 1 implies #[trigger] edges.contains((w[i], w[i + 1])) by {
            if i == 0 {
                assert(edges[j1] == (w[0], w[1]));
            } else {
                let k = i - 1;
                assert(edges.contains((rest[k], rest[k + 1])));
                assert(w[i] == rest[k] && w[i + 1] == rest[k + 1]);
            }
        }
        assert forall|i: int| 0 <= i < n + 1 implies all.contains(#[trigger] w[i]) by {
            if i > 0 {
                assert(w[i] == rest[i - 1]);
            }
        }
    }
}

/// The nodes among `vertices` from which no cycle is reachable, found by repeatedly removing
/// nodes all of whose successors were already removed.
pub fn cycle_free_set(edges: &Vec<Edge>, vertices: &Vec<u64>) -> (r: HashSet<u64>)
    ensures
        forall|v: u64|
            #[trigger] vertices@.contains(v) ==> (r@.contains(v) <==> !reaches_cycle(edges@, v)),
{
    let mut all: Vec<u64> = Vec::new();
    let mut i: usize = 0;
    while i < vertices.len()
        invariant
            i <= vertices@.len(),
            all@ == vertices@.take(i as int),
        decreases vertices@.len() - i,
    {
        all.push(vertices[i]);
        assert(vertices@.take(i + 1) =~= vertices@.take(i as int).push(vertices@[i as int]));
        i = i + 1;
    }
    assert(vertices@.take(i as int) =~= vertices@);
    let mut e: usize = 0;
    while e < edges.len()
        invariant
            e <= edges@.len(),
            all@.len() >= vertices@.len(),
            all@.take(vertices@.len() as int) == vertices@,
            forall|j: int| 0 <= j < e ==> all@.contains(#[trigger] edges@[j].1),
        decreases edges@.len() - e,
    {
        let ghost before = all@;
        all.push(edges[e].1);
        proof {
            assert(all@.take(vertices@.len() as int) =~= before.take(vertices@.len() as int));
            assert(all@[before.len() as int] == edges@[e as int].1);
            assert forall|j: int| 0 <= j < e + 1 implies all@.contains(#[trigger] edges@[j].1) by {
                if j < e {
                    let k = choose|k: int| 0 <= k < before.len() && before[k] == edges@[j].1;
                    assert(all@[k] == edges@[j].1);
                }
            }
        }
        e = e + 1;
    }
    let ghost all_set = all@.to_set();
    proof {
        vstd::seq_lib::seq_to_set_is_finite(all@);
        assert forall|v: u64| vertices@.contains(v) implies all_set.contains(v) by {
            let k = choose|k: int| 0 <= k < vertices@.len() && vertices@[k] == v;
            assert(all@[k] == v);
        }
    }
    let mut removed: HashSet<u64> = HashSet::new();
    let ghost mut rank: Map<u64, nat> = Map::empty();
    let ghost mut counter: nat = 0;
    let mut changed = true;
    while changed
        invariant
            all_set == all@.to_set(),
            all_set.finite(),
            removed@.finite(),
            removed@.subset_of(all_set),
            forall|j: int| 0 <= j < edges@.len() ==> all@.contains(#[trigger] edges@[j].1),
            ranked(edges@, removed@, rank),
            forall|u: u64| #[trigger] rank.contains_key(u) ==> rank[u] < counter,
            !changed ==> stuck(edges@, removed@, all_set),
        decreases all_set.len() - removed@.len() + (if changed {
            1int
        } else {
            0int
        }),
    {
        changed = false;
        let ghost start_len = removed@.len();
        let mut k: usize = 0;
        while k < all.len()
            invariant
                k <= all@.len(),
                all_set == all@.to_set(),
                all_set.finite(),
                removed@.finite(),
                removed@.subset_of(all_set),
                forall|j: int| 0 <= j < edges@.len() ==> all@.contains(#[trigger] edges@[j].1),
                ranked(edges@, removed@, rank),
                forall|u: u64| #[trigger] rank.contains_key(u) ==> rank[u] < counter,
                changed ==> removed@.len() > start_len,
                !changed ==> removed@.len() == start_len,
                !changed ==> forall|m: int|
                    0 <= m < k && !removed@.contains(#[trigger] all@[m]) ==> exists|j: int|
                        0 <= j < edges@.len() && (#[trigger] edges@[j]).0 == all@[m]
                            && !removed@.contains(edges@[j].1) && all_set.contains(edges@[j].1),
            decreases all@.len() - k,
        {
            let u = all[k];
            if !removed.contains(&u) {
                let mut blocked = false;
                let mut j: usize = 0;
                while j < edges.len()
                    invariant
                        j <= edges@.len(),
                        blocked ==> exists|m: int|
                            0 <= m < edges@.len() && (#[trigger] edges@[m]).0 == u
                                && !removed@.contains(edges@[m].1),
                        !blocked ==> forall|m: int|
                            0 <= m < j && (#[trigger] edges@[m]).0 == u ==> removed@.contains(
                                edges@[m].1,
                            ),
                    decreases edges@.len() - j,
                {
                    let (a, b) = edges[j];
                    assert(edges@[j as int] == (a, b));
                    if a == u && !removed.contains(&b) {
                        blocked = true;
                    }
                    j = j + 1;
                }
                if !blocked {
                    proof {
                        assert(all_set.contains(u)) by {
                            assert(all@[k as int] == u);
                        }
                        rank = rank.insert(u, counter);
                        counter = counter + 1;
                    }
                    removed.insert(u);
                    changed = true;
                } else {
                    proof {
                        if !changed {
                            let m0 = choose|m: int|
                                0 <= m < edges@.len() && (#[trigger] edges@[m]).0 == u
                                    && !removed@.contains(edges@[m].1);
                            assert(all@.contains(edges@[m0].1));
                            let q = choose|q: int| 0 <= q < all@.len() && all@[q] == edges@[m0].1;
                            assert(all_set.contains(edges@[m0].1)) by {
                                assert(all@[q] == edges@[m0].1);
                            }
                        }
                    }
                }
            }
            k = k + 1;
        }
        proof {
            lemma_len_subset(removed@, all_set);
            if !changed {
                assert forall|u: u64| all_set.contains(u) && !removed@.contains(u) implies exists|j: int|
                    0 <= j < edges@.len() && (#[trigger] edges@[j]).0 == u && !removed@.contains(
                        edges@[j].1,
                    ) && all_set.contains(edges@[j].1) by {
                    let m = choose|m: int| 0 <= m < all@.len() && all@[m] == u;
                    assert(!removed@.contains(all@[m]));
                }
            }
        }
    }
    proof {
        assert forall|v: u64| #[trigger] vertices@.contains(v) implies (removed@.contains(v)
            <==> !reaches_cycle(edges@, v)) by {
            if removed@.contains(v) {
                if reaches_cycle(edges@, v) {
                    let x = choose|x: u64| reaches(edges@, v, x) && #[trigger] on_cycle(edges@, x);
                    let w1 = choose|w: Seq<u64>| is_walk(edges@, w) && w[0] == v && w.last() == x;
                    lemma_ranked_walk(edges@, removed@, rank, w1);
                    let w2 = choose|w: Seq<u64>|
                        is_walk(edges@, w) && w.len() >= 2 && w[0] == x && w.last() == x;
                    lemma_ranked_walk(edges@, removed@, rank, w2);
                }
            } else {
                assert(all_set.contains(v));
                assert forall|j: int| 0 <= j < edges@.len() implies all_set.contains(
                    #[trigger] edges@[j].1,
                ) by {
                    assert(all@.contains(edges@[j].1));
                }
                let n = all_set.len();
                lemma_stuck_walk(edges@, removed@, all_set, v, n);
                let w = stuck_walk(edges@, removed@, v, n);
                lemma_pigeonhole(w, all_set);
                let (a, b) = choose|a: int, b: int| 0 <= a < b < w.len() && w[a] == w[b];
                lemma_subwalk(edges@, w, 0, a + 1);
                lemma_subwalk(edges@, w, a, b + 1);
                let x = w[a];
                assert(w.subrange(0, a + 1)[0] == v && w.subrange(0, a + 1).last() == x);
                assert(reaches(edges@, v, x));
                let c = w.subrange(a, b + 1);
                assert(c[0] == x && c.last() == x && c.len() >= 2);
                assert(on_cycle(edges@, x));
            }
        }
    }
    removed
}

} // verus!
