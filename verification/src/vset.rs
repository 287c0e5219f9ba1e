//! Finite sets of vertex identifiers, stored as strictly increasing vectors.

use vstd::prelude::*;

verus! {

/// A strictly increasing sequence: sorted ascending, with no repeats.
pub open spec fn ascending(s: Seq<u32>) -> bool {
    forall|i: int, j: int| 0 <= i < j < s.len() ==> s[i] < s[j]
}

/// A set of vertex identifiers. The elements are kept strictly increasing,
/// so the vector holds no duplicates and iterating yields ascending order.
#[derive(Debug, Clone, PartialEq, Eq)]
pub struct VertSet {
    pub elems: Vec<u32>,
}

impl View for VertSet {
    type V = Seq<u32>;

    open spec fn view(&self) -> Seq<u32> {
        self.elems@
    }
}

impl VertSet {
    /// Well-formed: the element vector is strictly increasing.
    pub open spec fn wf(&self) -> bool {
        ascending(self@)
    }

    /// The mathematical set of elements.
    pub open spec fn as_set(&self) -> Set<u32> {
        self@.to_set()
    }

    /// A well-formed `VertSet` holds each element once, so the vector length
    /// is the cardinality of the set, and the set is finite.
    pub proof fn lemma_card(&self)
        requires
            self.wf(),
        ensures
            self.as_set().finite(),
            self.as_set().len() == self@.len(),
    {
        broadcast use vstd::seq_lib::seq_to_set_is_finite;

        assert(self@.no_duplicates());
        self@.unique_seq_to_set();
    }

    pub fn new() -> (s: VertSet)
        ensures
            s.wf(),
            s@ == Seq::<u32>::empty(),
            s.as_set() == Set::<u32>::empty(),
    {
        let s = VertSet { elems: Vec::new() };
        proof {
            assert(s.as_set() =~= Set::<u32>::empty());
        }
        s
    }

    pub fn len(&self) -> (n: usize)
        ensures
            n == self@.len(),
    {
        self.elems.len()
    }

    pub fn is_empty(&self) -> (b: bool)
        ensures
            b <==> self@.len() == 0,
            b <==> self.as_set() =~= Set::<u32>::empty(),
    {
        proof {
            if self@.len() == 0 {
                assert(self.as_set() =~= Set::<u32>::empty());
            } else {
                assert(self@.contains(self@[0]));
                assert(self.as_set().contains(self@[0]));
            }
        }
        self.elems.len() == 0
    }

    pub fn contains(&self, v: u32) -> (b: bool)
        ensures
            b <==> self.as_set().contains(v),
            b <==> self@.contains(v),
    {
        let n: usize = self.elems.len();
        for i in 0..n
            invariant
                n == self@.len(),
                forall|j: int| 0 <= j < i ==> self@[j] != v,
        {
            if self.elems[i] == v {
                return true;
            }
        }
        false
    }

    /// Inserts `v`, keeping the elements strictly increasing; a present
    /// element is left alone.
    pub fn insert(&mut self, v: u32)
        requires
            old(self).wf(),
        ensures
            final(self).wf(),
            final(self).as_set() == old(self).as_set().insert(v),
    {
        let n: usize = self.elems.len();
        let mut i: usize = 0;
        while i < n && self.elems[i] < v
            invariant
                *self == *old(self),
                n == self@.len(),
                i <= n,
                forall|j: int| 0 <= j < i ==> self@[j] < v,
            decreases n - i,
        {
            i += 1;
        }
        if i < n && self.elems[i] == v {
            proof {
                assert(self@.contains(v));
                assert(self.as_set() =~= old(self).as_set().insert(v));
            }
            return;
        }
        proof {
            assert(forall|j: int| i <= j < self@.len() ==> v < self@[j]) by {
                assert(forall|j: int| i < j < self@.len() ==> self@[i as int] < self@[j]);
            }
        }
        self.elems.insert(i, v);
        proof {
            let s0 = old(self)@;
            let s1 = self@;
            assert(forall|a: int, b: int| 0 <= a < b < s1.len() ==> s1[a] < s1[b]) by {
                assert(forall|a: int| 0 <= a < i ==> s1[a] == s0[a]);
                assert(s1[i as int] == v);
                assert(forall|a: int| i < a < s1.len() ==> s1[a] == s0[a - 1]);
            }
            assert forall|x: u32| self.as_set().contains(x)
                <==> old(self).as_set().insert(v).contains(x) by {
                if s1.contains(x) {
                    let k = choose|k: int| 0 <= k < s1.len() && s1[k] == x;
                    if k < i {
                        assert(s0[k] == x);
                        assert(s0.contains(x));
                    } else if k == i {
                        assert(x == v);
                    } else {
                        assert(s0[k - 1] == x);
                        assert(s0.contains(x));
                    }
                }
                if s0.contains(x) {
                    let k = choose|k: int| 0 <= k < s0.len() && s0[k] == x;
                    if k < i {
                        assert(s1[k] == x);
                    } else {
                        assert(s1[k + 1] == x);
                    }
                    assert(s1.contains(x));
                }
                if x == v {
                    assert(s1[i as int] == x);
                    assert(s1.contains(x));
                }
            }
            assert(self.as_set() =~= old(self).as_set().insert(v));
        }
    }

    /// Removes `v` if present.
    pub fn remove(&mut self, v: u32)
        requires
            old(self).wf(),
        ensures
            final(self).wf(),
            final(self).as_set() == old(self).as_set().remove(v),
    {
        let n: usize = self.elems.len();
        let mut i: usize = 0;
        while i < n && self.elems[i] != v
            invariant
                *self == *old(self),
                n == self@.len(),
                i <= n,
                forall|j: int| 0 <= j < i ==> self@[j] != v,
            decreases n - i,
        {
            i += 1;
        }
        if i == n {
            proof {
                assert(!self@.contains(v));
                assert(!self.as_set().contains(v));
                assert(self.as_set() =~= old(self).as_set().remove(v));
            }
            return;
        }
        self.elems.remove(i);
        proof {
            let s0 = old(self)@;
            let s1 = self@;
            assert(forall|a: int, b: int| 0 <= a < b < s1.len() ==> s1[a] < s1[b]) by {
                assert(forall|a: int| 0 <= a < i ==> s1[a] == s0[a]);
                assert(forall|a: int| i <= a < s1.len() ==> s1[a] == s0[a + 1]);
            }
            assert forall|x: u32| self.as_set().contains(x)
                <==> old(self).as_set().remove(v).contains(x) by {
                if s1.contains(x) {
                    let k = choose|k: int| 0 <= k < s1.len() && s1[k] == x;
                    if k < i {
                        assert(s0[k] == x);
                    } else {
                        assert(s0[k + 1] == x);
                    }
                    assert(s0.contains(x));
                    assert(x != v) by {
                        if k < i {
                            assert(s0[k] != v);
                        } else {
                            assert(s0[i as int] == v);
                            assert(s0[i as int] < s0[k + 1]);
                        }
                    }
                }
                if s0.contains(x) && x != v {
                    let k = choose|k: int| 0 <= k < s0.len() && s0[k] == x;
                    assert(k != i);
                    if k < i {
                        assert(s1[k] == x);
                    } else {
                        assert(s1[k - 1] == x);
                    }
                    assert(s1.contains(x));
                }
            }
            assert(self.as_set() =~= old(self).as_set().remove(v));
        }
    }

    /// The elements of `self` that are also in `other`.
    pub fn intersect(&self, other: &VertSet) -> (r: VertSet)
        requires
            self.wf(),
        ensures
            r.wf(),
            r.as_set() == self.as_set().intersect(other.as_set()),
    {
        let n: usize = self.elems.len();
        let mut r = VertSet { elems: Vec::new() };
        for i in 0..n
            invariant
                self.wf(),
                n == self@.len(),
                forall|a: int, b: int| 0 <= a < b < r@.len() ==> r@[a] < r@[b],
                forall|k: int| 0 <= k < r@.len() && i < n ==> r@[k] < self@[i as int],
                forall|x: u32| r@.contains(x)
                    <==> (exists|j: int| 0 <= j < i && self@[j] == x) && other@.contains(x),
        {
            if other.contains(self.elems[i]) {
                let ghost r_old = r@;
                r.elems.push(self.elems[i]);
                proof {
                    assert(forall|k: int| 0 <= k < r_old.len() ==> r@[k] == r_old[k]);
                    assert(r@[r@.len() - 1] == self@[i as int]);
                    assert forall|x: u32| r@.contains(x)
                        <==> ((exists|j: int| 0 <= j < i + 1 && self@[j] == x)
                            && other@.contains(x)) by {
                        if r@.contains(x) {
                            let k = choose|k: int| 0 <= k < r@.len() && r@[k] == x;
                            if k < r@.len() - 1 {
                                assert(r_old[k] == x);
                                assert(r_old.contains(x));
                            } else {
                                assert(x == self@[i as int]);
                            }
                        }
                        if (exists|j: int| 0 <= j < i + 1 && self@[j] == x)
                            && other@.contains(x) {
                            let j = choose|j: int| 0 <= j < i + 1 && self@[j] == x;
                            if j < i {
                                assert(r_old.contains(x));
                                let k = choose|k: int| 0 <= k < r_old.len() && r_old[k] == x;
                                assert(r@[k] == x);
                            } else {
                                assert(r@[r@.len() - 1] == x);
                            }
                            assert(r@.contains(x));
                        }
                    }
                }
            } else {
                proof {
                    assert forall|x: u32| r@.contains(x)
                        <==> ((exists|j: int| 0 <= j < i + 1 && self@[j] == x)
                            && other@.contains(x)) by {
                        if (exists|j: int| 0 <= j < i + 1 && self@[j] == x)
                            && other@.contains(x) {
                            let j = choose|j: int| 0 <= j < i + 1 && self@[j] == x;
                            assert(j != i);
                        }
                    }
                }
            }
            proof {
                assert(forall|k: int|
                    0 <= k < r@.len() && i + 1 < n ==> r@[k] < self@[i + 1]) by {
                    assert(i + 1 < n ==> self@[i as int] < self@[i + 1]);
                }
            }
        }
        proof {
            assert forall|x: u32| r.as_set().contains(x)
                <==> self.as_set().intersect(other.as_set()).contains(x) by {
                assert(r@.contains(x) <==> (self@.contains(x) && other@.contains(x)));
            }
            assert(r.as_set() =~= self.as_set().intersect(other.as_set()));
        }
        r
    }

    /// The elements of `self` that are not in `other`.
    pub fn difference(&self, other: &VertSet) -> (r: VertSet)
        requires
            self.wf(),
        ensures
            r.wf(),
            r.as_set() == self.as_set().difference(other.as_set()),
    {
        let n: usize = self.elems.len();
        let mut r = VertSet { elems: Vec::new() };
        for i in 0..n
            invariant
                self.wf(),
                n == self@.len(),
                forall|a: int, b: int| 0 <= a < b < r@.len() ==> r@[a] < r@[b],
                forall|k: int| 0 <= k < r@.len() && i < n ==> r@[k] < self@[i as int],
                forall|x: u32| r@.contains(x)
                    <==> (exists|j: int| 0 <= j < i && self@[j] == x) && !other@.contains(x),
        {
            if !other.contains(self.elems[i]) {
                let ghost r_old = r@;
                r.elems.push(self.elems[i]);
                proof {
                    assert(forall|k: int| 0 <= k < r_old.len() ==> r@[k] == r_old[k]);
                    assert(r@[r@.len() - 1] == self@[i as int]);
                    assert forall|x: u32| r@.contains(x)
                        <==> ((exists|j: int| 0 <= j < i + 1 && self@[j] == x)
                            && !other@.contains(x)) by {
                        if r@.contains(x) {
                            let k = choose|k: int| 0 <= k < r@.len() && r@[k] == x;
                            if k < r@.len() - 1 {
                                assert(r_old[k] == x);
                                assert(r_old.contains(x));
                            } else {
                                assert(x == self@[i as int]);
                            }
                        }
                        if (exists|j: int| 0 <= j < i + 1 && self@[j] == x)
                            && !other@.contains(x) {
                            let j = choose|j: int| 0 <= j < i + 1 && self@[j] == x;
                            if j < i {
                                assert(r_old.contains(x));
                                let k = choose|k: int| 0 <= k < r_old.len() && r_old[k] == x;
                                assert(r@[k] == x);
                            } else {
                                assert(r@[r@.len() - 1] == x);
                            }
                            assert(r@.contains(x));
                        }
                    }
                }
            } else {
                proof {
                    assert forall|x: u32| r@.contains(x)
                        <==> ((exists|j: int| 0 <= j < i + 1 && self@[j] == x)
                            && !other@.contains(x)) by {
                        if (exists|j: int| 0 <= j < i + 1 && self@[j] == x)
                            && !other@.contains(x) {
                            let j = choose|j: int| 0 <= j < i + 1 && self@[j] == x;
                            assert(j != i);
                        }
                    }
                }
            }
            proof {
                assert(forall|k: int|
                    0 <= k < r@.len() && i + 1 < n ==> r@[k] < self@[i + 1]) by {
                    assert(i + 1 < n ==> self@[i as int] < self@[i + 1]);
                }
            }
        }
        proof {
            assert forall|x: u32| r.as_set().contains(x)
                <==> self.as_set().difference(other.as_set()).contains(x) by {
                assert(r@.contains(x) <==> (self@.contains(x) && !other@.contains(x)));
            }
            assert(r.as_set() =~= self.as_set().difference(other.as_set()));
        }
        r
    }

    /// An identical, independently owned copy.
    pub fn duplicate(&self) -> (r: VertSet)
        ensures
            r@ == self@,
            r.as_set() == self.as_set(),
    {
        let n: usize = self.elems.len();
        let mut v: Vec<u32> = Vec::new();
        for i in 0..n
            invariant
                n == self@.len(),
                v@ == self@.subrange(0, i as int),
        {
            v.push(self.elems[i]);
            proof {
                assert(v@ =~= self@.subrange(0, i + 1));
            }
        }
        proof {
            assert(v@ =~= self@);
        }
        VertSet { elems: v }
    }

    /// The elements, ascending.
    pub fn to_vec(&self) -> (v: Vec<u32>)
        ensures
            v@ == self@,
            v@.to_set() == self.as_set(),
    {
        self.duplicate().elems
    }
}

} // verus!
