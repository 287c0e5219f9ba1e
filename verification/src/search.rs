//! The pivoted Bron-Kerbosch clique search: the recursive engine, its
//! working-frame invariant, and the laws its callers rely on.

use vstd::prelude::*;
use vstd::set_lib::lemma_len_subset;
use crate::vset::VertSet;
use crate::vset::ascending;
use crate::graph::Graph;
use crate::graph::adjacent;
use crate::graph::nbrs;
use crate::graph::symmetric;
use crate::graph::irreflexive;

verus! {

/// `v` is adjacent to every member of `c`.
pub open spec fn adj_all(g: Map<u32, Set<u32>>, v: u32, c: Set<u32>) -> bool {
    forall|a: u32| c.contains(a) ==> adjacent(g, v, a)
}

/// `c` is a clique: every pair of distinct members is adjacent.
pub open spec fn is_clique(g: Map<u32, Set<u32>>, c: Set<u32>) -> bool {
    forall|a: u32, b: u32| c.contains(a) && c.contains(b) && a != b ==> adjacent(g, a, b)
}

/// The graph vertex `v` could join `c` and leave it a clique.
pub open spec fn can_extend(g: Map<u32, Set<u32>>, c: Set<u32>, v: u32) -> bool {
    g.dom().contains(v) && !c.contains(v) && adj_all(g, v, c)
}

/// `c` is a maximal clique: a clique of graph vertices that no further graph
/// vertex is adjacent to in full.
pub open spec fn is_max_clique(g: Map<u32, Set<u32>>, c: Set<u32>) -> bool {
    &&& is_clique(g, c)
    &&& c.subset_of(g.dom())
    &&& forall|v: u32| !can_extend(g, c, v)
}

/// The cliques one call of the search is responsible for: the maximal cliques
/// that contain all of `r`, stay inside `r + p`, and meet the size threshold.
pub open spec fn in_scope(
    g: Map<u32, Set<u32>>,
    r: Set<u32>,
    p: Set<u32>,
    min: int,
    c: Set<u32>,
) -> bool {
    &&& is_max_clique(g, c)
    &&& r.subset_of(c)
    &&& c.subset_of(r.union(p))
    &&& c.len() >= min
}

/// The invariant of a search frame `(r, p, x)`: `r` is a clique of graph
/// vertices, `p` and `x` are disjoint pools of graph vertices adjacent to all
/// of `r`, and together they hold every vertex that could still extend `r`.
pub open spec fn frame_inv(g: Map<u32, Set<u32>>, r: Set<u32>, p: Set<u32>, x: Set<u32>) -> bool {
    &&& r.subset_of(g.dom())
    &&& p.subset_of(g.dom())
    &&& x.subset_of(g.dom())
    &&& r.disjoint(p)
    &&& r.disjoint(x)
    &&& p.disjoint(x)
    &&& is_clique(g, r)
    &&& forall|w: u32|
        #![trigger p.contains(w)]
        #![trigger x.contains(w)]
        p.contains(w) || x.contains(w) ==> adj_all(g, w, r)
    &&& forall|w: u32|
        #![trigger adj_all(g, w, r)]
        g.dom().contains(w) && !r.contains(w) && adj_all(g, w, r) ==> p.contains(w)
            || x.contains(w)
}

/// Moving any part of `p` over to `x` preserves the frame invariant.
proof fn lemma_frame_evolves(
    g: Map<u32, Set<u32>>,
    r: Set<u32>,
    p: Set<u32>,
    x: Set<u32>,
    moved: Set<u32>,
)
    requires
        frame_inv(g, r, p, x),
        moved.subset_of(p),
    ensures
        frame_inv(g, r, p.difference(moved), x.union(moved)),
{
    let p1 = p.difference(moved);
    let x1 = x.union(moved);
    assert(p1.subset_of(g.dom()));
    assert(x1.subset_of(g.dom()));
    assert(r.disjoint(p1));
    assert(r.disjoint(x1));
    assert(p1.disjoint(x1));
    assert forall|w: u32| p1.contains(w) || x1.contains(w) implies adj_all(g, w, r) by {
        assert(p.contains(w) || x.contains(w));
    }
    assert forall|w: u32|
        g.dom().contains(w) && !r.contains(w) && #[trigger] adj_all(g, w, r) implies p1.contains(
        w,
    ) || x1.contains(w) by {
        assert(p.contains(w) || x.contains(w));
    }
}

/// Recursing on a candidate `v` yields a valid frame: `r + {v}` is again a
/// clique, and `p` and `x` cut down to the neighbours of `v` again hold every
/// vertex that could extend it.
proof fn lemma_child_frame(g: Map<u32, Set<u32>>, r: Set<u32>, p: Set<u32>, x: Set<u32>, v: u32)
    requires
        frame_inv(g, r, p, x),
        symmetric(g),
        irreflexive(g),
        p.contains(v),
    ensures
        frame_inv(g, r.insert(v), p.intersect(nbrs(g, v)), x.intersect(nbrs(g, v))),
{
    let r1 = r.insert(v);
    let p1 = p.intersect(nbrs(g, v));
    let x1 = x.intersect(nbrs(g, v));
    assert(adj_all(g, v, r));
    assert(r1.subset_of(g.dom()));
    assert(r1.disjoint(p1)) by {
        assert(!nbrs(g, v).contains(v)) by {
            assert(!adjacent(g, v, v));
        }
    }
    assert(r1.disjoint(x1));
    assert(p1.disjoint(x1));
    assert(is_clique(g, r1)) by {
        assert forall|a: u32, b: u32|
            r1.contains(a) && r1.contains(b) && a != b implies adjacent(g, a, b) by {
            if a == v {
                assert(r.contains(b));
                assert(adjacent(g, v, b));
            } else if b == v {
                assert(r.contains(a));
                assert(adjacent(g, v, a));
                assert(adjacent(g, a, v));
            } else {
                assert(r.contains(a) && r.contains(b));
            }
        }
    }
    assert forall|w: u32| p1.contains(w) || x1.contains(w) implies adj_all(g, w, r1) by {
        assert(p.contains(w) || x.contains(w));
        assert(adj_all(g, w, r));
        assert(nbrs(g, v).contains(w));
        assert(adjacent(g, v, w));
        assert(adjacent(g, w, v));
        assert forall|a: u32| r1.contains(a) implies adjacent(g, w, a) by {
            if a != v {
                assert(r.contains(a));
            }
        }
    }
    assert forall|w: u32|
        g.dom().contains(w) && !r1.contains(w) && #[trigger] adj_all(g, w, r1) implies p1.contains(
        w,
    ) || x1.contains(w) by {
        assert(adj_all(g, w, r)) by {
            assert(forall|a: u32| r.contains(a) ==> r1.contains(a));
        }
        assert(p.contains(w) || x.contains(w));
        assert(r1.contains(v));
        assert(adjacent(g, w, v));
        assert(adjacent(g, v, w));
        assert(nbrs(g, v).contains(w));
    }
}

/// A clique in the caller's scope whose first processed candidate is `v` is
/// exactly in the scope of the child call for `v`.
proof fn lemma_scope_split(
    g: Map<u32, Set<u32>>,
    r: Set<u32>,
    p0: Set<u32>,
    proc: Set<u32>,
    v: u32,
    min: int,
    c: Set<u32>,
)
    requires
        in_scope(g, r, p0, min, c),
        c.contains(v),
        c.disjoint(proc),
        !r.contains(v),
    ensures
        in_scope(g, r.insert(v), (p0.difference(proc)).intersect(nbrs(g, v)), min, c),
{
    let r1 = r.insert(v);
    let p1 = (p0.difference(proc)).intersect(nbrs(g, v));
    assert(r1.subset_of(c));
    assert forall|w: u32| c.contains(w) implies r1.union(p1).contains(w) by {
        if !r1.contains(w) {
            assert(w != v && !r.contains(w));
            assert(r.union(p0).contains(w));
            assert(p0.contains(w));
            assert(!proc.contains(w));
            assert(adjacent(g, v, w));
            assert(nbrs(g, v).contains(w));
            assert(p1.contains(w));
        }
    }
}

/// A clique in the scope of the child call for `v` lies in the caller's own
/// scope, contains `v`, and avoids every candidate processed before `v`.
proof fn lemma_scope_join(
    g: Map<u32, Set<u32>>,
    r: Set<u32>,
    p0: Set<u32>,
    proc: Set<u32>,
    v: u32,
    min: int,
    c: Set<u32>,
)
    requires
        in_scope(g, r.insert(v), (p0.difference(proc)).intersect(nbrs(g, v)), min, c),
        p0.contains(v),
        proc.subset_of(p0),
        !proc.contains(v),
        r.disjoint(p0),
    ensures
        in_scope(g, r, p0, min, c),
        c.contains(v),
        c.disjoint(proc),
{
    let r1 = r.insert(v);
    let p1 = (p0.difference(proc)).intersect(nbrs(g, v));
    assert(r.subset_of(c)) by {
        assert(forall|w: u32| r.contains(w) ==> r1.contains(w));
    }
    assert(c.contains(v)) by {
        assert(r1.contains(v));
    }
    assert forall|w: u32| c.contains(w) implies r.union(p0).contains(w) by {
        assert(r1.union(p1).contains(w));
        if r1.contains(w) {
            if w == v {
                assert(p0.contains(w));
            } else {
                assert(r.contains(w));
            }
        } else {
            assert(p1.contains(w));
            assert(p0.contains(w));
        }
    }
    assert forall|w: u32| c.contains(w) implies !proc.contains(w) by {
        assert(r1.union(p1).contains(w));
        if r1.contains(w) {
            if w == v {
            } else {
                assert(r.contains(w));
                if proc.contains(w) {
                    assert(p0.contains(w));
                    assert(false);
                }
            }
        } else {
            assert(p1.contains(w));
        }
    }
    assert(c.disjoint(proc));
}

/// Every clique in scope meets the candidate pool `p0 - nbrs(u)`: one that
/// avoided it could be extended by the pivot `u` itself, so it was not
/// maximal.
proof fn lemma_pivot_covers(
    g: Map<u32, Set<u32>>,
    r: Set<u32>,
    p0: Set<u32>,
    x0: Set<u32>,
    u: u32,
    min: int,
    c: Set<u32>,
)
    requires
        frame_inv(g, r, p0, x0),
        symmetric(g),
        irreflexive(g),
        p0.contains(u) || x0.contains(u),
        in_scope(g, r, p0, min, c),
    ensures
        !c.disjoint(p0.difference(nbrs(g, u))),
{
    let cand = p0.difference(nbrs(g, u));
    if c.disjoint(cand) {
        assert(!r.contains(u));
        if c.contains(u) {
            assert(r.union(p0).contains(u));
            assert(p0.contains(u));
            assert(!cand.contains(u));
            assert(nbrs(g, u).contains(u));
            assert(adjacent(g, u, u));
            assert(false);
        } else {
            assert(can_extend(g, c, u)) by {
                assert(g.dom().contains(u));
                assert(adj_all(g, u, r));
                assert forall|a: u32| c.contains(a) implies adjacent(g, u, a) by {
                    if r.contains(a) {
                    } else {
                        assert(r.union(p0).contains(a));
                        assert(p0.contains(a));
                        assert(!cand.contains(a));
                        assert(nbrs(g, u).contains(a));
                    }
                }
            }
            assert(!can_extend(g, c, u));
            assert(false);
        }
    }
}

/// Processing one more candidate extends the processed set by exactly that
/// candidate, which is new.
proof fn lemma_proc_step(s: Seq<u32>, k: int)
    requires
        ascending(s),
        0 <= k < s.len(),
    ensures
        s.subrange(0, k + 1).to_set() == s.subrange(0, k).to_set().insert(s[k]),
        !s.subrange(0, k).to_set().contains(s[k]),
{
    let a = s.subrange(0, k);
    let b = s.subrange(0, k + 1);
    assert forall|w: u32| b.to_set().contains(w) <==> a.to_set().insert(s[k]).contains(w) by {
        if b.contains(w) {
            let j = choose|j: int| 0 <= j < b.len() && b[j] == w;
            if j < k {
                assert(a[j] == w);
                assert(a.contains(w));
            } else {
                assert(w == s[k]);
            }
        }
        if a.contains(w) {
            let j = choose|j: int| 0 <= j < a.len() && a[j] == w;
            assert(b[j] == w);
            assert(b.contains(w));
        }
        if w == s[k] {
            assert(b[k] == w);
            assert(b.contains(w));
        }
    }
    assert(b.to_set() =~= a.to_set().insert(s[k]));
    if a.to_set().contains(s[k]) {
        let j = choose|j: int| 0 <= j < a.len() && a[j] == s[k];
        assert(s[j] == s[k] && j < k);
        assert(s[j] < s[k]);
    }
}

/// Picks the vertex of `p + x` with the most recorded neighbours; ties fall
/// to the earliest in ascending order over `p` then `x`.
fn pick_pivot(p: &VertSet, x: &VertSet, g: &Graph) -> (u: u32)
    requires
        g.wf(),
        p@.len() + x@.len() > 0,
    ensures
        p.as_set().contains(u) || x.as_set().contains(u),
        forall|w: u32|
            p.as_set().contains(w) || x.as_set().contains(w) ==> nbrs(g@, w).len() <= nbrs(
                g@,
                u,
            ).len(),
{
    let mut u: u32 = 0;
    let mut best: usize = 0;
    let mut have: bool = false;
    let np: usize = p.elems.len();
    for i in 0..np
        invariant
            g.wf(),
            np == p@.len(),
            have ==> (p@.contains(u) && best == nbrs(g@, u).len()),
            !have ==> i == 0,
            forall|j: int| 0 <= j < i ==> nbrs(g@, p@[j]).len() <= best,
    {
        let w = p.elems[i];
        let c = g.neighbor_count(w);
        if !have || c > best {
            u = w;
            best = c;
            have = true;
        }
        proof {
            assert(p@.contains(p@[i as int]));
        }
    }
    let nx: usize = x.elems.len();
    for i in 0..nx
        invariant
            g.wf(),
            nx == x@.len(),
            have ==> ((p@.contains(u) || x@.contains(u)) && best == nbrs(g@, u).len()),
            !have ==> (p@.len() == 0 && i == 0),
            forall|j: int| 0 <= j < p@.len() ==> nbrs(g@, p@[j]).len() <= best,
            forall|j: int| 0 <= j < i ==> nbrs(g@, x@[j]).len() <= best,
    {
        let w = x.elems[i];
        let c = g.neighbor_count(w);
        if !have || c > best {
            u = w;
            best = c;
            have = true;
        }
        proof {
            assert(x@.contains(x@[i as int]));
        }
    }
    proof {
        assert(have);
        assert forall|w: u32|
            p.as_set().contains(w) || x.as_set().contains(w) implies nbrs(g@, w).len() <= nbrs(
            g@,
            u,
        ).len() by {
            if p@.contains(w) {
                let j = choose|j: int| 0 <= j < p@.len() && p@[j] == w;
                assert(nbrs(g@, p@[j]).len() <= best);
            } else {
                assert(x@.contains(w));
                let j = choose|j: int| 0 <= j < x@.len() && x@[j] == w;
                assert(nbrs(g@, x@[j]).len() <= best);
            }
        }
    }
    u
}

/// The pivoted Bron-Kerbosch search over the frame `(r, p, x)`.
///
/// The graph is taken by shared reference and so cannot be changed by the
/// call. Preconditions: the graph is symmetric and simple (no self-loops;
/// the search would neither terminate nor stay complete on one), and the
/// frame satisfies the working invariant of `frame_inv`. The call appends to
/// `cliques` exactly the maximal cliques of size at least `min_value` that
/// contain `r` and stay inside `r + p`, each exactly once, each as its
/// vertices in ascending order; the threshold is inclusive. Candidates the
/// call finished with move from `p` to `x`.
#[verifier::rlimit(60)]
pub fn bron_kerbosch_v2(
    r: &VertSet,
    p: &mut VertSet,
    x: &mut VertSet,
    g: &Graph,
    cliques: &mut Vec<Vec<u32>>,
    min_value: usize,
)
    requires
        g.wf(),
        symmetric(g@),
        irreflexive(g@),
        r.wf(),
        old(p).wf(),
        old(x).wf(),
        frame_inv(g@, r.as_set(), old(p).as_set(), old(x).as_set()),
    ensures
        final(p).wf(),
        final(x).wf(),
        final(p).as_set().subset_of(old(p).as_set()),
        final(x).as_set() == old(x).as_set().union(
            old(p).as_set().difference(final(p).as_set()),
        ),
        old(cliques)@.len() <= final(cliques)@.len(),
        forall|i: int| 0 <= i < old(cliques)@.len() ==> final(cliques)@[i] == old(cliques)@[i],
        forall|i: int|
            old(cliques)@.len() <= i < final(cliques)@.len() ==> ascending(
                (#[trigger] final(cliques)@[i])@,
            ) && in_scope(
                g@,
                r.as_set(),
                old(p).as_set(),
                min_value as int,
                final(cliques)@[i]@.to_set(),
            ),
        forall|c: Set<u32>|
            #[trigger] in_scope(g@, r.as_set(), old(p).as_set(), min_value as int, c)
                ==> exists|i: int|
                    old(cliques)@.len() <= i < final(cliques)@.len()
                        && (#[trigger] final(cliques)@[i])@.to_set() == c,
        forall|i: int, j: int|
            old(cliques)@.len() <= i < j < final(cliques)@.len() ==> final(cliques)@[i]@.to_set()
                != final(cliques)@[j]@.to_set(),
    decreases old(p)@.len(),
{
    let ghost g0 = g@;
    let ghost r0 = r.as_set();
    let ghost p0 = p.as_set();
    let ghost x0 = x.as_set();
    let ghost n0 = cliques@.len() as int;
    let ghost cliques0 = cliques@;
    let ghost minv = min_value as int;
    let ghost plen0 = p@.len() as int;
    proof {
        p.lemma_card();
        r.lemma_card();
    }

    let p_done = p.is_empty();
    let x_done = x.is_empty();
    if p_done && x_done {
        if r.len() >= min_value {
            let rec = r.to_vec();
            cliques.push(rec);
            proof {
                assert(cliques@.len() == n0 + 1);
                assert(cliques@[n0] == rec);
                assert(rec@.to_set() == r0);
                assert(is_max_clique(g0, r0)) by {
                    assert forall|v: u32| !can_extend(g0, r0, v) by {
                        if can_extend(g0, r0, v) {
                            assert(adj_all(g0, v, r0));
                            assert(p0.contains(v) || x0.contains(v));
                            assert(false);
                        }
                    }
                }
                assert(r0.len() >= minv);
                assert(in_scope(g0, r0, p0, minv, r0));
                assert forall|i: int|
                    n0 <= i < cliques@.len() implies ascending((#[trigger] cliques@[i])@)
                        && in_scope(g0, r0, p0, minv, cliques@[i]@.to_set()) by {
                    assert(i == n0);
                    assert(cliques@[i] == rec);
                }
                assert forall|c: Set<u32>|
                    #[trigger] in_scope(g0, r0, p0, minv, c) implies exists|i: int|
                        n0 <= i < cliques@.len() && (#[trigger] cliques@[i])@.to_set() == c by {
                    assert(c =~= r0) by {
                        assert forall|w: u32| c.contains(w) implies r0.contains(w) by {
                            assert(r0.union(p0).contains(w));
                        }
                        assert(forall|w: u32| r0.contains(w) ==> c.contains(w));
                    }
                    assert((cliques@[n0])@.to_set() == c);
                }
            }
        } else {
            proof {
                assert forall|c: Set<u32>| !in_scope(g0, r0, p0, minv, c) by {
                    if in_scope(g0, r0, p0, minv, c) {
                        assert(c =~= r0) by {
                            assert forall|w: u32| c.contains(w) implies r0.contains(w) by {
                                assert(r0.union(p0).contains(w));
                            }
                            assert(forall|w: u32| r0.contains(w) ==> c.contains(w));
                        }
                        assert(c.len() < minv);
                        assert(false);
                    }
                }
            }
        }
        proof {
            assert(p0.difference(p.as_set()) =~= Set::<u32>::empty());
            assert(x.as_set() =~= x0.union(p0.difference(p.as_set())));
        }
        return;
    }

    proof {
        assert(p@.len() + x@.len() > 0);
    }
    let pivot = pick_pivot(p, x, g);
    proof {
        assert(adj_all(g0, pivot, r0));
        assert(!r0.contains(pivot));
    }
    let npiv = g.neighbors(pivot);
    let cand = p.difference(&npiv);
    let ghost candset = cand.as_set();
    let m: usize = cand.elems.len();
    proof {
        assert(candset == p0.difference(nbrs(g0, pivot)));
        assert(cand@.subrange(0, 0).to_set() =~= Set::<u32>::empty());
        assert(p.as_set() =~= p0.difference(cand@.subrange(0, 0).to_set()));
        assert(x.as_set() =~= x0.union(cand@.subrange(0, 0).to_set()));
        assert forall|c: Set<u32>| c.disjoint(cand@.subrange(0, 0).to_set()) by {}
    }
    for k in 0..m
        invariant
            g.wf(),
            g@ == g0,
            symmetric(g0),
            irreflexive(g0),
            r.wf(),
            r.as_set() == r0,
            minv == min_value as int,
            frame_inv(g0, r0, p0, x0),
            p0.finite(),
            p0.len() == plen0,
            plen0 == old(p)@.len(),
            p0.contains(pivot) || x0.contains(pivot),
            m == cand@.len(),
            ascending(cand@),
            candset == cand.as_set(),
            candset == p0.difference(nbrs(g0, pivot)),
            p.wf(),
            x.wf(),
            p.as_set() == p0.difference(cand@.subrange(0, k as int).to_set()),
            x.as_set() == x0.union(cand@.subrange(0, k as int).to_set()),
            n0 == cliques0.len(),
            n0 <= cliques@.len(),
            forall|i: int| 0 <= i < n0 ==> cliques@[i] == cliques0[i],
            forall|i: int|
                n0 <= i < cliques@.len() ==> ascending((#[trigger] cliques@[i])@) && in_scope(
                    g0,
                    r0,
                    p0,
                    minv,
                    cliques@[i]@.to_set(),
                ),
            forall|c: Set<u32>|
                #[trigger] in_scope(g0, r0, p0, minv, c) ==> ((exists|i: int|
                    n0 <= i < cliques@.len() && (#[trigger] cliques@[i])@.to_set() == c)
                    <==> !c.disjoint(cand@.subrange(0, k as int).to_set())),
            forall|i: int, j: int|
                n0 <= i < j < cliques@.len() ==> cliques@[i]@.to_set() != cliques@[j]@.to_set(),
    {
        let v = cand.elems[k];
        let ghost proc = cand@.subrange(0, k as int).to_set();
        proof {
            assert(cand@[k as int] == v);
            assert(cand@.contains(v));
            assert(candset.contains(v));
            assert(p0.contains(v));
            lemma_proc_step(cand@, k as int);
            assert(!proc.contains(v));
            assert(p.as_set().contains(v));
            assert(proc.subset_of(p0)) by {
                assert forall|w: u32| proc.contains(w) implies p0.contains(w) by {
                    let jj = choose|jj: int|
                        0 <= jj < k && cand@.subrange(0, k as int)[jj] == w;
                    assert(cand@[jj] == w);
                    assert(cand@.contains(w));
                    assert(candset.contains(w));
                }
            }
            lemma_frame_evolves(g0, r0, p0, x0, proc);
            assert(frame_inv(g0, r0, p.as_set(), x.as_set()));
            lemma_child_frame(g0, r0, p.as_set(), x.as_set(), v);
        }
        let mut new_r = r.duplicate();
        new_r.insert(v);
        let nv = g.neighbors(v);
        let mut new_p = p.intersect(&nv);
        let mut new_x = x.intersect(&nv);
        proof {
            assert(new_r.as_set() == r0.insert(v));
            assert(new_p.as_set() == p.as_set().intersect(nbrs(g0, v)));
            assert(new_x.as_set() == x.as_set().intersect(nbrs(g0, v)));
            assert(frame_inv(g0, new_r.as_set(), new_p.as_set(), new_x.as_set()));
            new_p.lemma_card();
            assert(!new_p.as_set().contains(v)) by {
                assert(!adjacent(g0, v, v));
            }
            assert(new_p.as_set().subset_of(p0.remove(v))) by {
                assert forall|w: u32|
                    new_p.as_set().contains(w) implies p0.remove(v).contains(w) by {
                    assert(p.as_set().contains(w));
                }
            }
            lemma_len_subset(new_p.as_set(), p0.remove(v));
            assert(p0.remove(v).len() == p0.len() - 1);
            assert(new_p@.len() < plen0);
        }
        let ghost len_before = cliques@.len() as int;
        let ghost entries_before = cliques@;
        let ghost pk = p.as_set();
        bron_kerbosch_v2(&new_r, &mut new_p, &mut new_x, g, cliques, min_value);
        proof {
            let procp = proc.insert(v);
            assert(pk == p0.difference(proc));
            assert(r0.disjoint(p0));
            // Soundness of the entries so far.
            assert forall|i: int|
                n0 <= i < cliques@.len() implies ascending((#[trigger] cliques@[i])@)
                    && in_scope(g0, r0, p0, minv, cliques@[i]@.to_set()) by {
                if i < len_before {
                    assert(cliques@[i] == entries_before[i]);
                } else {
                    assert(in_scope(
                        g0,
                        r0.insert(v),
                        pk.intersect(nbrs(g0, v)),
                        minv,
                        cliques@[i]@.to_set(),
                    ));
                    lemma_scope_join(g0, r0, p0, proc, v, minv, cliques@[i]@.to_set());
                }
            }
            // Pairwise distinctness.
            assert forall|i: int, j: int|
                n0 <= i < j < cliques@.len() implies cliques@[i]@.to_set()
                    != cliques@[j]@.to_set() by {
                if j < len_before {
                    assert(cliques@[i] == entries_before[i]);
                    assert(cliques@[j] == entries_before[j]);
                } else if i >= len_before {
                } else {
                    let ci = cliques@[i]@.to_set();
                    let cj = cliques@[j]@.to_set();
                    assert(cliques@[i] == entries_before[i]);
                    assert(in_scope(g0, r0, p0, minv, ci));
                    assert(exists|t: int|
                        n0 <= t < len_before && (#[trigger] entries_before[t])@.to_set()
                            == ci) by {
                        assert((entries_before[i])@.to_set() == ci);
                    }
                    assert(!ci.disjoint(proc));
                    assert(in_scope(g0, r0.insert(v), pk.intersect(nbrs(g0, v)), minv, cj));
                    lemma_scope_join(g0, r0, p0, proc, v, minv, cj);
                    assert(cj.disjoint(proc));
                    if ci == cj {
                        let w = choose|w: u32| ci.contains(w) && proc.contains(w);
                        assert(cj.contains(w) && proc.contains(w));
                        assert(false);
                    }
                }
            }
            // Exactly the cliques that meet the processed candidates are out.
            assert forall|c: Set<u32>|
                #[trigger] in_scope(g0, r0, p0, minv, c) implies ((exists|i: int|
                    n0 <= i < cliques@.len() && (#[trigger] cliques@[i])@.to_set() == c)
                    <==> !c.disjoint(procp)) by {
                if exists|i: int|
                    n0 <= i < cliques@.len() && (#[trigger] cliques@[i])@.to_set() == c {
                    let i = choose|i: int|
                        n0 <= i < cliques@.len() && (#[trigger] cliques@[i])@.to_set() == c;
                    if i < len_before {
                        assert((entries_before[i])@.to_set() == c);
                        assert(exists|t: int|
                            n0 <= t < len_before && (#[trigger] entries_before[t])@.to_set()
                                == c) by {
                            assert((entries_before[i])@.to_set() == c);
                        }
                        assert(!c.disjoint(proc));
                        let w = choose|w: u32| c.contains(w) && proc.contains(w);
                        assert(procp.contains(w));
                        assert(!c.disjoint(procp));
                    } else {
                        assert(in_scope(g0, r0.insert(v), pk.intersect(nbrs(g0, v)), minv, c));
                        lemma_scope_join(g0, r0, p0, proc, v, minv, c);
                        assert(c.contains(v) && procp.contains(v));
                        assert(!c.disjoint(procp));
                    }
                }
                if !c.disjoint(procp) {
                    if !c.disjoint(proc) {
                        let t = choose|t: int|
                            n0 <= t < len_before && (#[trigger] entries_before[t])@.to_set()
                                == c;
                        assert(cliques@[t] == entries_before[t]);
                        assert(exists|i: int|
                            n0 <= i < cliques@.len() && (#[trigger] cliques@[i])@.to_set()
                                == c) by {
                            assert((cliques@[t])@.to_set() == c);
                        }
                    } else {
                        assert(c.contains(v)) by {
                            let w = choose|w: u32| c.contains(w) && procp.contains(w);
                            if w != v {
                                assert(proc.contains(w));
                                assert(false);
                            }
                        }
                        lemma_scope_split(g0, r0, p0, proc, v, minv, c);
                        assert(in_scope(g0, r0.insert(v), pk.intersect(nbrs(g0, v)), minv, c));
                        assert(exists|i: int|
                            len_before <= i < cliques@.len() && (#[trigger] cliques@[
                                i
                            ])@.to_set() == c);
                    }
                }
            }
        }
        p.remove(v);
        x.insert(v);
        proof {
            lemma_proc_step(cand@, k as int);
            assert(p.as_set() =~= p0.difference(cand@.subrange(0, k + 1).to_set()));
            assert(x.as_set() =~= x0.union(cand@.subrange(0, k + 1).to_set()));
        }
    }
    proof {
        assert(cand@.subrange(0, m as int) =~= cand@);
        assert(cand@.subrange(0, m as int).to_set() == candset);
        assert(p.as_set().subset_of(p0));
        assert(p0.difference(p.as_set()) =~= candset) by {
            assert forall|w: u32| candset.contains(w) implies p0.contains(w) by {}
        }
        assert(x.as_set() =~= x0.union(p0.difference(p.as_set())));
        assert forall|c: Set<u32>|
            #[trigger] in_scope(g0, r0, p0, minv, c) implies exists|i: int|
                n0 <= i < cliques@.len() && (#[trigger] cliques@[i])@.to_set() == c by {
            lemma_pivot_covers(g0, r0, p0, x0, pivot, minv, c);
            assert(!c.disjoint(candset));
        }
    }
}

/// The search under a `u32` threshold: the same engine, the same contract.
///
/// The graph is taken by shared reference and so cannot be changed by the
/// call; the appended records are exactly the maximal cliques of size at
/// least `min_value` (inclusive) that contain `r` and stay inside `r + p`,
/// each exactly once, sorted ascending.
pub fn run_bron_kerbosch(
    r: &VertSet,
    p: &mut VertSet,
    x: &mut VertSet,
    graph: &Graph,
    cliques: &mut Vec<Vec<u32>>,
    min_value: u32,
)
    requires
        graph.wf(),
        symmetric(graph@),
        irreflexive(graph@),
        r.wf(),
        old(p).wf(),
        old(x).wf(),
        frame_inv(graph@, r.as_set(), old(p).as_set(), old(x).as_set()),
    ensures
        final(p).wf(),
        final(x).wf(),
        final(p).as_set().subset_of(old(p).as_set()),
        final(x).as_set() == old(x).as_set().union(
            old(p).as_set().difference(final(p).as_set()),
        ),
        old(cliques)@.len() <= final(cliques)@.len(),
        forall|i: int| 0 <= i < old(cliques)@.len() ==> final(cliques)@[i] == old(cliques)@[i],
        forall|i: int|
            old(cliques)@.len() <= i < final(cliques)@.len() ==> ascending(
                (#[trigger] final(cliques)@[i])@,
            ) && in_scope(
                graph@,
                r.as_set(),
                old(p).as_set(),
                min_value as int,
                final(cliques)@[i]@.to_set(),
            ),
        forall|c: Set<u32>|
            #[trigger] in_scope(graph@, r.as_set(), old(p).as_set(), min_value as int, c)
                ==> exists|i: int|
                    old(cliques)@.len() <= i < final(cliques)@.len()
                        && (#[trigger] final(cliques)@[i])@.to_set() == c,
        forall|i: int, j: int|
            old(cliques)@.len() <= i < j < final(cliques)@.len() ==> final(cliques)@[i]@.to_set()
                != final(cliques)@[j]@.to_set(),
{
    bron_kerbosch_v2(r, p, x, graph, cliques, min_value as usize)
}

/// Every maximal clique of the graph with at least `min_size` vertices,
/// each exactly once, each as its vertices in ascending order.
///
/// This is the whole search from the empty frame: `r` and `x` start empty
/// and `p` starts as the full vertex set.
pub fn maximal_cliques(g: &Graph, min_size: usize) -> (out: Vec<Vec<u32>>)
    requires
        g.wf(),
        symmetric(g@),
        irreflexive(g@),
    ensures
        forall|i: int|
            0 <= i < out@.len() ==> ascending((#[trigger] out@[i])@) && is_max_clique(
                g@,
                out@[i]@.to_set(),
            ) && out@[i]@.to_set().len() >= min_size,
        forall|c: Set<u32>|
            #[trigger] is_max_clique(g@, c) && c.len() >= min_size ==> exists|i: int|
                0 <= i < out@.len() && (#[trigger] out@[i])@.to_set() == c,
        forall|i: int, j: int|
            0 <= i < j < out@.len() ==> out@[i]@.to_set() != out@[j]@.to_set(),
{
    let r = VertSet::new();
    let mut p = g.vertex_set();
    let mut x = VertSet::new();
    let mut out: Vec<Vec<u32>> = Vec::new();
    proof {
        assert(frame_inv(g@, r.as_set(), p.as_set(), x.as_set())) by {
            assert(r.as_set().disjoint(p.as_set()));
            assert(is_clique(g@, r.as_set()));
            assert(forall|w: u32|
                p.as_set().contains(w) || x.as_set().contains(w) ==> adj_all(
                    g@,
                    w,
                    r.as_set(),
                ));
        }
    }
    let ghost p0 = p.as_set();
    bron_kerbosch_v2(&r, &mut p, &mut x, g, &mut out, min_size);
    proof {
        assert forall|i: int|
            0 <= i < out@.len() implies ascending((#[trigger] out@[i])@) && is_max_clique(
            g@,
            out@[i]@.to_set(),
        ) && out@[i]@.to_set().len() >= min_size by {
            assert(in_scope(g@, r.as_set(), p0, min_size as int, out@[i]@.to_set()));
        }
        assert forall|c: Set<u32>|
            #[trigger] is_max_clique(g@, c) && c.len() >= min_size implies exists|i: int|
                0 <= i < out@.len() && (#[trigger] out@[i])@.to_set() == c by {
            assert(in_scope(g@, r.as_set(), p0, min_size as int, c)) by {
                assert(r.as_set().subset_of(c));
                assert forall|w: u32| c.contains(w) implies r.as_set().union(p0).contains(
                    w,
                ) by {
                    assert(c.subset_of(g@.dom()));
                    assert(p0.contains(w));
                }
            }
        }
    }
    out
}

/// Raising the size threshold never adds a clique: every record of a sound
/// run at the higher threshold `hi` names a clique that a complete run at
/// the lower threshold `lo` also reported.
pub proof fn lemma_threshold_monotonic(
    g: Map<u32, Set<u32>>,
    lo: usize,
    hi: usize,
    out_lo: Seq<Vec<u32>>,
    out_hi: Seq<Vec<u32>>,
    j: int,
)
    requires
        lo <= hi,
        // the lower run is complete for `lo`
        forall|c: Set<u32>|
            #[trigger] is_max_clique(g, c) && c.len() >= lo ==> exists|i: int|
                0 <= i < out_lo.len() && (#[trigger] out_lo[i])@.to_set() == c,
        // the higher run is sound for `hi`
        forall|i: int|
            0 <= i < out_hi.len() ==> is_max_clique(g, (#[trigger] out_hi[i])@.to_set())
                && out_hi[i]@.to_set().len() >= hi,
        0 <= j < out_hi.len(),
    ensures
        exists|i: int|
            0 <= i < out_lo.len() && (#[trigger] out_lo[i])@.to_set() == out_hi[j]@.to_set(),
{
    let c = out_hi[j]@.to_set();
    assert(is_max_clique(g, c) && c.len() >= lo);
    let i = choose|i: int| 0 <= i < out_lo.len() && (#[trigger] out_lo[i])@.to_set() == c;
    assert(out_lo[i]@.to_set() == out_hi[j]@.to_set());
}

} // verus!
