//! A set of numbers that remembers the order in which they came.

use std::collections::HashSet;

use vstd::prelude::*;

verus! {

broadcast use vstd::std_specs::hash::group_hash_axioms;

/// A set of numbers, listed in the order in which they were first inserted.
pub struct IdSet {
    items: Vec<u64>,
    seen: HashSet<u64>,
}

impl View for IdSet {
    type V = Set<u64>;

    closed spec fn view(&self) -> Set<u64> {
        self.seen@
    }
}

impl IdSet {
    /// The numbers in the order in which they came.
    pub closed spec fn listed(self) -> Seq<u64> {
        self.items@
    }

    /// The list holds each member once and nothing else.
    pub closed spec fn wf(self) -> bool {
        &&& self.items@.no_duplicates()
        &&& forall|x: u64| #[trigger] self.items@.contains(x) <==> self.seen@.contains(x)
    }

    /// What well-formedness says of the list.
    pub proof fn lemma_listed(self)
        requires
            self.wf(),
        ensures
            self.listed().no_duplicates(),
            forall|x: u64| #[trigger] self.listed().contains(x) <==> self@.contains(x),
            self@ == self.listed().to_set(),
    {
        assert(self@ =~= self.listed().to_set());
    }

    /// The empty set.
    pub fn new() -> (r: IdSet)
        ensures
            r.wf(),
            r.listed() == Seq::<u64>::empty(),
            r@ == Set::<u64>::empty(),
    {
        let r: IdSet = IdSet { items: Vec::new(), seen: HashSet::new() };
        proof {
            assert(r.seen@ =~= Set::empty());
        }
        r
    }

    /// Adds a number and says whether it is new.
    pub fn insert(&mut self, x: u64) -> (fresh: bool)
        requires
            old(self).wf(),
        ensures
            final(self).wf(),
            fresh == !old(self)@.contains(x),
            final(self)@ == old(self)@.insert(x),
            final(self).listed() == (if fresh {
                old(self).listed().push(x)
            } else {
                old(self).listed()
            }),
    {
        let ghost before = *self;
        if self.seen.contains(&x) {
            proof {
                assert(before.seen@ =~= before.seen@.insert(x));
            }
            return false;
        }
        self.seen.insert(x);
        self.items.push(x);
        proof {
            assert forall|y: u64| #[trigger]
                self.items@.contains(y) <==> self.seen@.contains(y) by {
                assert(before.items@.contains(y) <==> before.seen@.contains(y));
                if y == x {
                    assert(self.items@[before.items@.len() as int] == y);
                } else {
                    if before.items@.contains(y) {
                        let i = choose|i: int| 0 <= i < before.items@.len() && before.items@[i] == y;
                        assert(self.items@[i] == y);
                    }
                    if self.items@.contains(y) {
                        let i = choose|i: int| 0 <= i < self.items@.len() && self.items@[i] == y;
                        assert(before.items@[i] == y);
                    }
                }
            }
            assert(!before.items@.contains(x));
        }
        true
    }

    /// Whether the number is in the set.
    pub fn contains(&self, x: u64) -> (r: bool)
        requires
            self.wf(),
        ensures
            r == self@.contains(x),
    {
        self.seen.contains(&x)
    }

    /// The number of members.
    pub fn len(&self) -> (r: usize)
        requires
            self.wf(),
        ensures
            r == self.listed().len(),
            r == self@.len(),
            self@.finite(),
    {
        proof {
            self.lemma_listed();
            self.items@.unique_seq_to_set();
        }
        self.items.len()
    }

    /// The member that came as number `i`, counted from zero.
    pub fn at(&self, i: usize) -> (r: u64)
        requires
            self.wf(),
            i < self.listed().len(),
        ensures
            r == self.listed()[i as int],
            self@.contains(r),
    {
        proof {
            assert(self.items@.contains(self.items@[i as int]));
        }
        self.items[i]
    }

    /// The members in the order in which they came.
    pub fn items(&self) -> (r: &Vec<u64>)
        ensures
            r@ == self.listed(),
    {
        &self.items
    }
}

} // verus!
