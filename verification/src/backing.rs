//! A backing store that never reclaims: the leak-only table policy.
//!
//! Entries are held in an arena and addressed by their index, which is
//! stable because entries are never removed.  This is the degenerate
//! configuration without reference counts: simpler, free of any liveness
//! bookkeeping, and every entry lives as long as the store.

use vstd::prelude::*;

use crate::model::all_distinct;
use crate::Id;
use vstd::laws_eq::obeys_concrete_eq;

verus! {

/// A backing store holding one canonical copy of every value interned so
/// far, in insertion order.  A handle issued by the store carries the index
/// of its value, which never changes.
pub struct HashBacking<T> {
    backing: Vec<T>,
}

impl<T> View for HashBacking<T> {
    type V = Seq<T>;

    closed spec fn view(&self) -> Seq<T> {
        self.backing@
    }
}

impl<T> HashBacking<T> {
    /// One entry per value: the store never holds two equal values.
    pub open spec fn wf(&self) -> bool {
        all_distinct(self@)
    }

    /// How many items are currently stored?
    pub fn num_entries(&self) -> (n: usize)
        ensures
            n == self@.len(),
    {
        self.backing.len()
    }

    /// Create a new backing store, pre-allocating `capacity` items.
    pub fn new(capacity: usize) -> (r: Self)
        ensures
            r@ == Seq::<T>::empty(),
            r.wf(),
    {
        HashBacking { backing: Vec::with_capacity(capacity) }
    }
}

impl<T: PartialEq + Eq> HashBacking<T> {
    /// Intern `val`: hand out the handle of the entry equal to it, adding
    /// the entry if there is none yet.  Two calls with equal values return
    /// handles with equal identities; calls with unequal values, handles
    /// with unequal identities.
    pub fn unique(&mut self, val: T) -> (r: Id<T>)
        requires
            old(self).wf(),
            obeys_concrete_eq::<T>(),
            old(self)@.contains(val) || old(self)@.len() < usize::MAX,
        ensures
            final(self).wf(),
            if old(self)@.contains(val) {
                final(self)@ == old(self)@ && r@ == old(self)@.index_of(val)
            } else {
                final(self)@ == old(self)@.push(val) && r@ == old(self)@.len()
            },
            r@ < final(self)@.len() && final(self)@[r@ as int] == val,
    {
        proof {
            reveal(vstd::laws_eq::obeys_concrete_eq);
        }
        let n = self.backing.len();
        let mut i: usize = 0;
        while i < n
            invariant
                obeys_concrete_eq::<T>(),
                old(self).wf(),
                self == old(self),
                n == self@.len(),
                i <= n,
                forall|j: int| 0 <= j < i ==> self@[j] != val,
            decreases n - i,
        {
            proof {
                reveal(vstd::laws_eq::obeys_concrete_eq);
            }
            if self.backing[i] == val {
                proof {
                    assert(old(self)@.contains(val)) by {
                        assert(old(self)@[i as int] == val);
                    }
                    assert(old(self)@.index_of(val) == i as int) by {
                        let k = old(self)@.index_of(val);
                        assert(old(self)@[k] == val);
                    }
                }
                return Id::from_serial(i);
            }
            i = i + 1;
        }
        proof {
            assert(!old(self)@.contains(val)) by {
                if old(self)@.contains(val) {
                    let k = choose|k: int| 0 <= k < old(self)@.len() && old(self)@[k] == val;
                    assert(old(self)@[k] != val);
                }
            }
        }
        let r = self.backing.len();
        self.backing.push(val);
        Id::from_serial(r)
    }
}

} // verus!
