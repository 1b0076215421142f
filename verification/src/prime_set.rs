//! The candidate-prime collection: an immutable-after-construction set of
//! `u64` values with constant-time membership (a std `HashSet`) and a sorted
//! element vector so that callers can walk the values in ascending order.

use vstd::prelude::*;
use std::collections::HashSet;

verus! {

broadcast use vstd::std_specs::hash::group_hash_axioms;

/// A set of candidate primes. The `table` answers membership queries in
/// constant amortized time; `elems` holds the same values, strictly
/// ascending, for deterministic iteration.
pub struct PrimeSet {
    elems: Vec<u64>,
    table: HashSet<u64>,
}

impl View for PrimeSet {
    type V = Set<u64>;

    closed spec fn view(&self) -> Set<u64> {
        self.table@
    }
}

impl PrimeSet {
    /// The elements in ascending order.
    pub closed spec fn to_seq(&self) -> Seq<u64> {
        self.elems@
    }

    /// Well-formed: the vector is strictly sorted and holds exactly the
    /// members of the hash table.
    pub closed spec fn wf(&self) -> bool {
        &&& forall|i: int, j: int|
            0 <= i < j < self.elems@.len() ==> self.elems@[i] < self.elems@[j]
        &&& forall|v: u64| self.table@.contains(v) <==> self.elems@.contains(v)
    }

    /// The two representations agree, and the order is strictly ascending.
    pub proof fn lemma_wf_props(&self)
        requires
            self.wf(),
        ensures
            forall|i: int, j: int|
                0 <= i < j < self.to_seq().len() ==> self.to_seq()[i] < self.to_seq()[j],
            forall|v: u64| self@.contains(v) <==> self.to_seq().contains(v),
            self@.finite(),
    {
        assert forall|v: u64| self@.contains(v) implies self.to_seq().contains(v) by {}
        assert forall|v: u64| self.to_seq().contains(v) implies self@.contains(v) by {}
        self.lemma_finite();
    }

    proof fn lemma_finite(&self)
        requires
            forall|v: u64| self.table@.contains(v) <==> self.elems@.contains(v),
        ensures
            self@.finite(),
    {
        let s = self.elems@.to_set();
        assert(s.finite()) by {
            broadcast use vstd::seq_lib::seq_to_set_is_finite;

        }
        assert(self.table@ =~= s) by {
            assert forall|v: u64| self.table@.contains(v) implies s.contains(v) by {
                assert(self.elems@.contains(v));
            }
            assert forall|v: u64| s.contains(v) implies self.table@.contains(v) by {
                assert(self.elems@.contains(v));
            }
        }
    }

    /// An empty set.
    pub fn new() -> (r: Self)
        ensures
            r.wf(),
            r@ =~= Set::<u64>::empty(),
            r.to_seq() =~= Seq::<u64>::empty(),
    {
        let r = PrimeSet { elems: Vec::new(), table: HashSet::new() };
        proof {
            assert(forall|v: u64| !r.elems@.contains(v));
        }
        r
    }

    /// How many values the set holds.
    pub fn len(&self) -> (r: usize)
        ensures
            r == self.to_seq().len(),
    {
        self.elems.len()
    }

    /// The `i`-th value in ascending order.
    pub fn nth(&self, i: usize) -> (r: u64)
        requires
            i < self.to_seq().len(),
        ensures
            r == self.to_seq()[i as int],
    {
        self.elems[i]
    }

    /// Constant-time membership test.
    pub fn contains(&self, v: u64) -> (r: bool)
        ensures
            r == self@.contains(v),
    {
        self.table.contains(&v)
    }

    /// Append a value larger than everything present: the fast path used by
    /// the sieves, which discover primes in ascending order.
    pub fn push_max(&mut self, v: u64)
        requires
            old(self).wf(),
            forall|w: u64| old(self)@.contains(w) ==> w < v,
        ensures
            final(self).wf(),
            final(self)@ == old(self)@.insert(v),
            final(self).to_seq() == old(self).to_seq().push(v),
    {
        proof {
            assert forall|i: int| 0 <= i < self.elems@.len() implies self.elems@[i] < v by {
                assert(old(self).elems@.contains(old(self).elems@[i]));
                assert(old(self).table@.contains(old(self).elems@[i]));
                assert(old(self)@.contains(old(self).elems@[i]));
            }
        }
        self.elems.push(v);
        self.table.insert(v);
        proof {
            assert forall|w: u64| self.table@.contains(w) implies self.elems@.contains(w) by {
                if w == v {
                    assert(self.elems@[self.elems@.len() - 1] == v);
                } else {
                    assert(old(self).elems@.contains(w));
                    let i = choose|i: int|
                        0 <= i < old(self).elems@.len() && old(self).elems@[i] == w;
                    assert(self.elems@[i] == w);
                }
            }
            assert forall|w: u64| self.elems@.contains(w) implies self.table@.contains(w) by {
                let i = choose|i: int| 0 <= i < self.elems@.len() && self.elems@[i] == w;
                if i < self.elems@.len() - 1 {
                    assert(old(self).elems@[i] == w);
                    assert(old(self).elems@.contains(w));
                }
            }
        }
    }

    /// Insert a value anywhere, keeping the vector sorted and ignoring
    /// duplicates: used when an externally supplied list is taken in.
    pub fn insert(&mut self, v: u64)
        requires
            old(self).wf(),
        ensures
            final(self).wf(),
            final(self)@ == old(self)@.insert(v),
    {
        let ghost s0 = self.elems@;
        let mut idx: usize = 0;
        while idx < self.elems.len() && self.elems[idx] < v
            invariant
                idx <= self.elems@.len(),
                forall|i: int| 0 <= i < idx ==> self.elems@[i] < v,
                self.elems@ == s0,
                self.table@ == old(self).table@,
                self.wf(),
            decreases self.elems@.len() - idx,
        {
            idx = idx + 1;
        }
        if idx < self.elems.len() && self.elems[idx] == v {
            // Already present; the table must agree.
            proof {
                assert(self.elems@.contains(v));
                assert(self@.insert(v) =~= self@);
            }
        } else {
            proof {
                assert forall|i: int| idx <= i < self.elems@.len() implies v < self.elems@[i] by {
                    assert(self.elems@[idx as int] <= self.elems@[i]);
                }
            }
            self.elems.insert(idx, v);
            self.table.insert(v);
            proof {
                let es = self.elems@;
                assert forall|i: int, j: int| 0 <= i < j < es.len() implies es[i] < es[j] by {
                    if i < idx {
                        assert(es[i] == s0[i]);
                    }
                    if j < idx {
                        assert(es[j] == s0[j]);
                    }
                    if i > idx {
                        assert(es[i] == s0[i - 1]);
                    }
                    if j > idx {
                        assert(es[j] == s0[j - 1]);
                    }
                }
                assert forall|w: u64| self.table@.contains(w) implies es.contains(w) by {
                    if w == v {
                        assert(es[idx as int] == v);
                    } else {
                        assert(s0.contains(w));
                        let i = choose|i: int| 0 <= i < s0.len() && s0[i] == w;
                        if i < idx {
                            assert(es[i] == w);
                        } else {
                            assert(es[i + 1] == w);
                        }
                    }
                }
                assert forall|w: u64| es.contains(w) implies self.table@.contains(w) by {
                    let i = choose|i: int| 0 <= i < es.len() && es[i] == w;
                    if i < idx {
                        assert(s0[i] == w);
                        assert(s0.contains(w));
                    } else if i > idx {
                        assert(s0[i - 1] == w);
                        assert(s0.contains(w));
                    }
                }
            }
        }
    }

    /// A copy of the elements in ascending order.
    pub fn to_vec(&self) -> (r: Vec<u64>)
        ensures
            r@ == self.to_seq(),
    {
        let mut r: Vec<u64> = Vec::new();
        let mut i: usize = 0;
        while i < self.elems.len()
            invariant
                i <= self.elems@.len(),
                r@ == self.elems@.take(i as int),
            decreases self.elems@.len() - i,
        {
            r.push(self.elems[i]);
            proof {
                assert(self.elems@.take(i + 1 as int) =~= self.elems@.take(i as int).push(
                    self.elems@[i as int],
                ));
            }
            i = i + 1;
        }
        proof {
            assert(self.elems@.take(self.elems@.len() as int) =~= self.elems@);
        }
        r
    }
}

} // verus!
