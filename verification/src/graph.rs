//! The undirected graph model: a mapping from a vertex identifier to the set
//! of its neighbours, built symmetrically from an edge list.

use vstd::prelude::*;
use crate::vset::VertSet;

verus! {

/// The neighbour set of `v`: a vertex with no entry behaves exactly like one
/// mapped to the empty set.
pub open spec fn nbrs(g: Map<u32, Set<u32>>, v: u32) -> Set<u32> {
    if g.dom().contains(v) {
        g[v]
    } else {
        Set::empty()
    }
}

/// `b` is recorded as a neighbour of `a`.
pub open spec fn adjacent(g: Map<u32, Set<u32>>, a: u32, b: u32) -> bool {
    nbrs(g, a).contains(b)
}

/// Every edge is recorded in both directions.
pub open spec fn symmetric(g: Map<u32, Set<u32>>) -> bool {
    forall|a: u32, b: u32| #[trigger] adjacent(g, a, b) ==> adjacent(g, b, a)
}

/// No vertex is its own neighbour: the graph is simple.
pub open spec fn irreflexive(g: Map<u32, Set<u32>>) -> bool {
    forall|a: u32| !#[trigger] adjacent(g, a, a)
}

/// The graph after recording the single direction `a -> b`.
pub open spec fn with_edge(g: Map<u32, Set<u32>>, a: u32, b: u32) -> Map<u32, Set<u32>> {
    g.insert(a, nbrs(g, a).insert(b))
}

/// The graph built from an edge list: each pair is recorded in both
/// directions, so the result is undirected whether or not the input was.
pub open spec fn edges_map(edges: Seq<(u32, u32)>) -> Map<u32, Set<u32>>
    decreases edges.len(),
{
    if edges.len() == 0 {
        Map::empty()
    } else {
        let e = edges.last();
        with_edge(with_edge(edges_map(edges.drop_last()), e.0, e.1), e.1, e.0)
    }
}

/// Whether some entry of `s` has key `k`.
pub open spec fn has_key(s: Seq<(u32, VertSet)>, k: u32) -> bool {
    exists|i: int| 0 <= i < s.len() && s[i].0 == k
}

/// The index of the entry with key `k`, where one exists.
pub open spec fn entry_index(s: Seq<(u32, VertSet)>, k: u32) -> int {
    choose|i: int| 0 <= i < s.len() && s[i].0 == k
}

/// An undirected adjacency structure over `u32` vertex identifiers. The
/// entries are kept sorted by key; each neighbour set is a `VertSet`.
#[derive(Debug, Clone, PartialEq, Eq)]
pub struct Graph {
    pub adj: Vec<(u32, VertSet)>,
}

impl View for Graph {
    type V = Map<u32, Set<u32>>;

    open spec fn view(&self) -> Map<u32, Set<u32>> {
        Map::new(
            |k: u32| has_key(self.adj@, k),
            |k: u32| self.adj@[entry_index(self.adj@, k)].1.as_set(),
        )
    }
}

impl Graph {
    /// Well-formed: keys strictly increasing, every neighbour set well-formed.
    pub open spec fn wf(&self) -> bool {
        &&& forall|i: int, j: int|
            0 <= i < j < self.adj@.len() ==> self.adj@[i].0 < self.adj@[j].0
        &&& forall|i: int| 0 <= i < self.adj@.len() ==> (#[trigger] self.adj@[i].1).wf()
    }

    /// In a well-formed graph the entry at index `i` is the one its key finds.
    proof fn lemma_entry_at(&self, i: int)
        requires
            self.wf(),
            0 <= i < self.adj@.len(),
        ensures
            self@.dom().contains(self.adj@[i].0),
            self@[self.adj@[i].0] == self.adj@[i].1.as_set(),
    {
        let k = self.adj@[i].0;
        assert(has_key(self.adj@, k));
        let j = entry_index(self.adj@, k);
        assert(0 <= j < self.adj@.len() && self.adj@[j].0 == k);
        assert(j == i) by {
            if j < i {
                assert(self.adj@[j].0 < self.adj@[i].0);
            } else if i < j {
                assert(self.adj@[i].0 < self.adj@[j].0);
            }
        }
    }

    /// The domain of the graph is the set of keys that occur in the vector.
    proof fn lemma_dom(&self)
        ensures
            forall|k: u32| self@.dom().contains(k) <==> has_key(self.adj@, k),
    {
    }

    pub fn new() -> (g: Graph)
        ensures
            g.wf(),
            g@ == Map::<u32, Set<u32>>::empty(),
    {
        let g = Graph { adj: Vec::new() };
        proof {
            assert(g@ =~= Map::<u32, Set<u32>>::empty());
        }
        g
    }

    /// The index of the entry with key `v`, if present.
    fn find(&self, v: u32) -> (r: Option<usize>)
        ensures
            match r {
                Some(i) => i < self.adj@.len() && self.adj@[i as int].0 == v,
                None => !has_key(self.adj@, v),
            },
    {
        let n: usize = self.adj.len();
        for i in 0..n
            invariant
                n == self.adj@.len(),
                forall|j: int| 0 <= j < i ==> self.adj@[j].0 != v,
        {
            if self.adj[i].0 == v {
                return Some(i);
            }
        }
        None
    }

    /// The neighbour set of `v`; empty when `v` has no entry.
    pub fn neighbors(&self, v: u32) -> (r: VertSet)
        requires
            self.wf(),
        ensures
            r.wf(),
            r.as_set() == nbrs(self@, v),
    {
        proof {
            self.lemma_dom();
        }
        match self.find(v) {
            Some(i) => {
                proof {
                    self.lemma_entry_at(i as int);
                }
                self.adj[i].1.duplicate()
            }
            None => VertSet::new(),
        }
    }

    /// How many neighbours `v` has; zero when `v` has no entry.
    pub fn neighbor_count(&self, v: u32) -> (n: usize)
        requires
            self.wf(),
        ensures
            n == nbrs(self@, v).len(),
    {
        proof {
            self.lemma_dom();
            assert(Set::<u32>::empty().len() == 0);
        }
        match self.find(v) {
            Some(i) => {
                proof {
                    self.lemma_entry_at(i as int);
                    self.adj@[i as int].1.lemma_card();
                }
                self.adj[i].1.elems.len()
            }
            None => 0,
        }
    }

    /// Every vertex that has an entry, as a set.
    pub fn vertex_set(&self) -> (p: VertSet)
        requires
            self.wf(),
        ensures
            p.wf(),
            p.as_set() == self@.dom(),
    {
        let n: usize = self.adj.len();
        let mut v: Vec<u32> = Vec::new();
        for i in 0..n
            invariant
                self.wf(),
                n == self.adj@.len(),
                v@.len() == i,
                forall|j: int| 0 <= j < i ==> v@[j] == self.adj@[j].0,
        {
            v.push(self.adj[i].0);
        }
        let p = VertSet { elems: v };
        proof {
            self.lemma_dom();
            assert forall|x: u32| p.as_set().contains(x) <==> self@.dom().contains(x) by {
                if p@.contains(x) {
                    let k = choose|k: int| 0 <= k < p@.len() && p@[k] == x;
                    assert(self.adj@[k].0 == x);
                    assert(has_key(self.adj@, x));
                }
                if has_key(self.adj@, x) {
                    let k = choose|k: int| 0 <= k < self.adj@.len() && self.adj@[k].0 == x;
                    assert(p@[k] == x);
                    assert(p@.contains(x));
                }
            }
            assert(p.as_set() =~= self@.dom());
        }
        p
    }

    /// Records the direction `a -> b` only.
    fn insert_directed(&mut self, a: u32, b: u32)
        requires
            old(self).wf(),
        ensures
            final(self).wf(),
            final(self)@ == with_edge(old(self)@, a, b),
    {
        let n: usize = self.adj.len();
        let mut i: usize = 0;
        while i < n && self.adj[i].0 < a
            invariant
                *self == *old(self),
                n == self.adj@.len(),
                i <= n,
                forall|j: int| 0 <= j < i ==> self.adj@[j].0 < a,
            decreases n - i,
        {
            i += 1;
        }
        if i < n && self.adj[i].0 == a {
            // An entry for `a` exists: extend its neighbour set.
            proof {
                self.lemma_entry_at(i as int);
            }
            let (k, mut ns) = self.adj.remove(i);
            ns.insert(b);
            self.adj.insert(i, (k, ns));
            proof {
                let s0 = old(self).adj@;
                let s1 = self.adj@;
                assert(s1 =~= s0.update(i as int, (a, self.adj@[i as int].1)));
                assert(forall|j: int| 0 <= j < s1.len() ==> s1[j].0 == s0[j].0);
                assert(self.wf());
                assert forall|x: u32| #![all_triggers]
                    (self@.dom().contains(x) <==> with_edge(old(self)@, a, b).dom().contains(x))
                    && (self@.dom().contains(x)
                        ==> self@[x] == with_edge(old(self)@, a, b)[x]) by {
                    old(self).lemma_dom();
                    self.lemma_dom();
                    if has_key(s1, x) {
                        let j = choose|j: int| 0 <= j < s1.len() && s1[j].0 == x;
                        self.lemma_entry_at(j);
                        old(self).lemma_entry_at(j);
                        if j == i {
                            assert(x == a);
                            assert(self@[x] == old(self).adj@[i as int].1.as_set().insert(b));
                        } else {
                            assert(self@[x] == old(self)@[x]);
                        }
                    }
                }
                assert(self@ =~= with_edge(old(self)@, a, b));
            }
        } else {
            // No entry for `a`: create one holding only `b`.
            proof {
                assert(forall|j: int| i <= j < self.adj@.len() ==> a < self.adj@[j].0) by {
                    assert(forall|j: int|
                        i < j < self.adj@.len() ==> self.adj@[i as int].0 < self.adj@[j].0);
                }
                assert(!has_key(self.adj@, a));
                old(self).lemma_dom();
            }
            let mut ns = VertSet::new();
            ns.insert(b);
            self.adj.insert(i, (a, ns));
            proof {
                let s0 = old(self).adj@;
                let s1 = self.adj@;
                assert(forall|j: int| 0 <= j < i ==> s1[j] == s0[j]);
                assert(s1[i as int].0 == a);
                assert(forall|j: int| i < j < s1.len() ==> s1[j] == s0[j - 1]);
                assert(self.wf()) by {
                    assert(forall|p: int, q: int|
                        0 <= p < q < s1.len() ==> s1[p].0 < s1[q].0);
                }
                assert(nbrs(old(self)@, a) == Set::<u32>::empty());
                assert(s1[i as int].1.as_set() =~= Set::<u32>::empty().insert(b));
                assert forall|x: u32| #![all_triggers]
                    (self@.dom().contains(x) <==> with_edge(old(self)@, a, b).dom().contains(x))
                    && (self@.dom().contains(x)
                        ==> self@[x] == with_edge(old(self)@, a, b)[x]) by {
                    self.lemma_dom();
                    if has_key(s1, x) {
                        let j = choose|j: int| 0 <= j < s1.len() && s1[j].0 == x;
                        self.lemma_entry_at(j);
                        if j == i {
                            assert(x == a);
                        } else if j < i {
                            old(self).lemma_entry_at(j);
                            assert(x != a);
                            assert(self@[x] == old(self)@[x]);
                        } else {
                            old(self).lemma_entry_at(j - 1);
                            assert(x != a);
                            assert(self@[x] == old(self)@[x]);
                        }
                    }
                    if has_key(s0, x) {
                        let j = choose|j: int| 0 <= j < s0.len() && s0[j].0 == x;
                        if j < i {
                            assert(s1[j].0 == x);
                        } else {
                            assert(s1[j + 1].0 == x);
                        }
                        assert(has_key(s1, x));
                    }
                    if x == a {
                        assert(has_key(s1, a));
                    }
                }
                assert(self@ =~= with_edge(old(self)@, a, b));
            }
        }
    }

    /// Records the edge `{a, b}` in both directions; this is the sole
    /// mechanism that makes the graph undirected. Repeats are absorbed.
    pub fn add_edge(&mut self, a: u32, b: u32)
        requires
            old(self).wf(),
        ensures
            final(self).wf(),
            final(self)@ == with_edge(with_edge(old(self)@, a, b), b, a),
            symmetric(old(self)@) ==> symmetric(final(self)@),
            irreflexive(old(self)@) && a != b ==> irreflexive(final(self)@),
    {
        self.insert_directed(a, b);
        self.insert_directed(b, a);
        proof {
            if symmetric(old(self)@) {
                lemma_with_edge_both_symmetric(old(self)@, a, b);
            }
            if irreflexive(old(self)@) && a != b {
                lemma_with_edge_both_irreflexive(old(self)@, a, b);
            }
        }
    }

    /// Builds the undirected graph of an edge list. A pair that names no new
    /// vertex only grows neighbour sets; duplicates are idempotent.
    pub fn from_edges(edges: &Vec<(u32, u32)>) -> (g: Graph)
        ensures
            g.wf(),
            g@ == edges_map(edges@),
            symmetric(g@),
            (forall|k: int| 0 <= k < edges@.len() ==> (#[trigger] edges@[k]).0 != edges@[k].1)
                ==> irreflexive(g@),
    {
        let n: usize = edges.len();
        let mut g = Graph::new();
        proof {
            assert(edges@.subrange(0, 0) =~= Seq::<(u32, u32)>::empty());
            assert(g@ == edges_map(edges@.subrange(0, 0)));
            assert(symmetric(g@)) by {
                assert(forall|x: u32, y: u32| !adjacent(g@, x, y));
            }
            assert(irreflexive(g@));
        }
        for i in 0..n
            invariant
                n == edges@.len(),
                g.wf(),
                g@ == edges_map(edges@.subrange(0, i as int)),
                symmetric(g@),
                (forall|k: int| 0 <= k < i ==> (#[trigger] edges@[k]).0 != edges@[k].1)
                    ==> irreflexive(g@),
        {
            let ghost g_before = g@;
            let ghost irr_before = irreflexive(g@);
            let (a, b) = edges[i];
            g.add_edge(a, b);
            proof {
                let pre = edges@.subrange(0, i as int);
                let cur = edges@.subrange(0, i + 1);
                assert(cur.drop_last() =~= pre);
                assert(cur.last() == edges@[i as int]);
                assert(g@ == edges_map(cur));
                if forall|k: int| 0 <= k < i + 1 ==> (#[trigger] edges@[k]).0 != edges@[k].1 {
                    assert(forall|k: int| 0 <= k < i ==> (#[trigger] edges@[k]).0 != edges@[k].1);
                    assert(irr_before);
                    assert(edges@[i as int].0 != edges@[i as int].1);
                    assert(irreflexive(g@));
                }
            }
        }
        proof {
            assert(edges@.subrange(0, n as int) =~= edges@);
        }
        g
    }
}

/// Recording an edge in both directions preserves symmetry.
proof fn lemma_with_edge_both_symmetric(g: Map<u32, Set<u32>>, a: u32, b: u32)
    requires
        symmetric(g),
    ensures
        symmetric(with_edge(with_edge(g, a, b), b, a)),
{
    let g1 = with_edge(g, a, b);
    let g2 = with_edge(g1, b, a);
    assert forall|x: u32, y: u32| #[trigger] adjacent(g2, x, y) implies adjacent(g2, y, x) by {
        assert(nbrs(g2, b) == nbrs(g1, b).insert(a));
        assert(nbrs(g1, a) == nbrs(g, a).insert(b));
        if x == b && y == a {
            assert(nbrs(g2, a).contains(b)) by {
                if a == b {
                } else {
                    assert(nbrs(g2, a) == nbrs(g1, a));
                }
            }
        } else if x == b {
            // y is an old neighbour of b
            assert(nbrs(g1, b).contains(y) || y == a);
            if y == a {
            } else {
                assert(nbrs(g, b).contains(y) || (b == a && y == b));
                if nbrs(g, b).contains(y) {
                    assert(adjacent(g, b, y));
                    assert(adjacent(g, y, b));
                    assert(nbrs(g2, y).contains(b)) by {
                        if y == b {
                        } else if y == a {
                        } else {
                            assert(nbrs(g2, y) == nbrs(g, y));
                        }
                    }
                }
            }
        } else if x == a {
            assert(nbrs(g2, a).contains(y));
            assert(nbrs(g1, a).contains(y)) by {
                if a == b {
                    assert(nbrs(g2, a) == nbrs(g1, a).insert(a));
                    if y == a {
                        assert(nbrs(g1, a).contains(b));
                    }
                }
            }
            assert(nbrs(g, a).contains(y) || y == b);
            if y == b {
                assert(nbrs(g2, b).contains(a));
            } else {
                assert(adjacent(g, a, y));
                assert(adjacent(g, y, a));
                assert(nbrs(g2, y).contains(a)) by {
                    if y == b {
                    } else if y == a {
                    } else {
                        assert(nbrs(g2, y) == nbrs(g, y));
                    }
                }
            }
        } else {
            assert(nbrs(g2, x) == nbrs(g, x));
            assert(adjacent(g, x, y));
            assert(adjacent(g, y, x));
            assert(nbrs(g2, y).contains(x)) by {
                if y == b {
                    assert(nbrs(g1, b).contains(x)) by {
                        if b == a {
                            assert(nbrs(g, b).contains(x));
                        }
                    }
                } else if y == a {
                    assert(nbrs(g, a).contains(x));
                }
            }
        }
    }
}

/// Recording an edge between two distinct vertices preserves simplicity.
proof fn lemma_with_edge_both_irreflexive(g: Map<u32, Set<u32>>, a: u32, b: u32)
    requires
        irreflexive(g),
        a != b,
    ensures
        irreflexive(with_edge(with_edge(g, a, b), b, a)),
{
    let g1 = with_edge(g, a, b);
    let g2 = with_edge(g1, b, a);
    assert forall|x: u32| !#[trigger] adjacent(g2, x, x) by {
        if x == b {
            assert(nbrs(g2, b) == nbrs(g1, b).insert(a));
            assert(nbrs(g1, b) == nbrs(g, b));
            assert(!adjacent(g, b, b));
        } else if x == a {
            assert(nbrs(g2, a) == nbrs(g1, a));
            assert(nbrs(g1, a) == nbrs(g, a).insert(b));
            assert(!adjacent(g, a, a));
        } else {
            assert(nbrs(g2, x) == nbrs(g, x));
            assert(!adjacent(g, x, x));
        }
    }
}

} // verus!
