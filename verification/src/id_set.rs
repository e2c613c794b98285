use vstd::prelude::*;

use crate::distance::bytes32_eq;

verus! {

/// A set of 32-byte identifiers.
pub struct IdSet {
    items: Vec<[u8; 32]>,
}

impl IdSet {
    pub closed spec fn has(&self, id: Seq<u8>) -> bool {
        exists|i: int| 0 <= i < self.items@.len() && self.items@[i]@ == id
    }

    pub closed spec fn size(&self) -> nat {
        self.items@.len()
    }

    /// No identifier is stored twice.
    pub closed spec fn wf(&self) -> bool {
        forall|i: int, j: int|
            0 <= i < j < self.items@.len() ==> self.items@[i]@ != self.items@[j]@
    }

    pub fn new() -> (s: IdSet)
        ensures
            s.wf(),
            s.size() == 0,
            forall|x: Seq<u8>| !s.has(x),
    {
        IdSet { items: Vec::new() }
    }

    pub fn len(&self) -> (r: usize)
        ensures
            r == self.size(),
    {
        self.items.len()
    }

    fn position(&self, id: &[u8; 32]) -> (r: Option<usize>)
        ensures
            match r {
                Some(i) => i < self.items@.len() && self.items@[i as int]@ == id@,
                None => !self.has(id@),
            },
    {
        let mut i: usize = 0;
        while i < self.items.len()
            invariant
                0 <= i <= self.items@.len(),
                forall|j: int| 0 <= j < i ==> self.items@[j]@ != id@,
            decreases self.items@.len() - i,
        {
            if bytes32_eq(&self.items[i], id) {
                return Some(i);
            }
            i = i + 1;
        }
        None
    }

    pub fn contains(&self, id: &[u8; 32]) -> (r: bool)
        ensures
            r == self.has(id@),
    {
        self.position(id).is_some()
    }

    /// Adds the identifier; returns whether it was absent.
    pub fn insert(&mut self, id: [u8; 32]) -> (added: bool)
        requires
            old(self).wf(),
        ensures
            final(self).wf(),
            added == !old(self).has(id@),
            forall|x: Seq<u8>| final(self).has(x) == (old(self).has(x) || x == id@),
            final(self).size() == old(self).size() + (if added { 1nat } else { 0nat }),
    {
        match self.position(&id) {
            Some(_) => false,
            None => {
                let ghost before = self.items@;
                self.items.push(id);
                proof {
                    assert forall|x: Seq<u8>| self.has(x) == (old(self).has(x) || x == id@) by {
                        if self.has(x) && x != id@ {
                            let i = choose|i: int|
                                0 <= i < self.items@.len() && self.items@[i]@ == x;
                            assert(i < before.len());
                            assert(before[i]@ == x);
                        }
                        if old(self).has(x) {
                            let i = choose|i: int| 0 <= i < before.len() && before[i]@ == x;
                            assert(self.items@[i]@ == x);
                        }
                        if x == id@ {
                            assert(self.items@[before.len() as int]@ == x);
                        }
                    }
                }
                true
            },
        }
    }

    /// Removes the identifier; returns whether it was present.
    pub fn remove(&mut self, id: &[u8; 32]) -> (removed: bool)
        requires
            old(self).wf(),
        ensures
            final(self).wf(),
            removed == old(self).has(id@),
            forall|x: Seq<u8>| final(self).has(x) == (old(self).has(x) && x != id@),
            final(self).size() + (if removed { 1nat } else { 0nat }) == old(self).size(),
    {
        match self.position(id) {
            None => false,
            Some(i) => {
                let ghost before = self.items@;
                self.items.remove(i);
                proof {
                    assert forall|x: Seq<u8>| self.has(x) == (old(self).has(x) && x != id@) by {
                        if self.has(x) {
                            let k = choose|k: int|
                                0 <= k < self.items@.len() && self.items@[k]@ == x;
                            if k < i {
                                assert(before[k]@ == x);
                            } else {
                                assert(before[k + 1]@ == x);
                            }
                        }
                        if old(self).has(x) && x != id@ {
                            let k = choose|k: int| 0 <= k < before.len() && before[k]@ == x;
                            if k < i {
                                assert(self.items@[k]@ == x);
                            } else {
                                assert(k != i);
                                assert(self.items@[k - 1]@ == x);
                            }
                        }
                    }
                }
                true
            },
        }
    }
}

} // verus!
