//! Allocators which create one shared identity per distinct value.
//! Useful for applications with highly-redundant data structures such as
//! compilers or automatic theorem provers.
//!
//! If `t1 == t2`, then interning `t1` and interning `t2` yield handles with
//! the same identity.  This collapses structurally-equal substructures into a
//! single shared instance, so that equality, hashing and ordering of handles
//! are single integer comparisons instead of recursive structural ones.
//!
//! An [`Id`] is a handle: an integer identity minted by the table that
//! interned the value.  The table owns the values; a handle is dereferenced
//! through the table that issued it, and two handles from one table are equal
//! exactly when they denote the same entry.  Occasionally you may wish to
//! "garbage collect" values no longer referenced by any handle; this is
//! achieved with `Allocator::delete_unused`.

use vstd::prelude::*;

pub mod allocators;
pub mod backing;
pub mod model;

use core::marker::PhantomData;
use crate::model::{AllocModel, can_intern, spec_collect, spec_intern};
use vstd::laws_eq::obeys_concrete_eq;

verus! {

/// A handle to an interned value: the stable serial number of the table
/// entry holding the value.
///
/// Handles compare, order and hash by that identity, **not** by the wrapped
/// value: this is the behavioural contract of interning, not merely an
/// optimization.  Two handles issued by the same table are equal exactly when
/// they denote the same entry, which — because the table keeps one entry per
/// value — is exactly when the interned values were equal.
#[derive(Eq, Ord, Hash, Debug)]
pub struct Id<T> {
    serial: usize,
    marker: PhantomData<T>,
}

impl<T> View for Id<T> {
    type V = usize;

    /// A handle is, mathematically, just its identity.
    closed spec fn view(&self) -> usize {
        self.serial
    }
}

impl<T> Id<T> {
    /// Produce a unique integral identifier from an `Id`.
    pub fn id(p: &Self) -> (r: usize)
        ensures
            r == p@,
    {
        p.serial
    }

    /// Mint the handle carrying serial `s`.  Only the tables in this crate
    /// create handles; a handle made from an arbitrary integer would not
    /// denote an entry.
    pub(crate) fn from_serial(s: usize) -> (r: Self)
        ensures
            r@ == s,
    {
        Id { serial: s, marker: PhantomData }
    }
}

impl<T> PartialEq for Id<T> {
    /// Handle equality is identity equality, not a recursive value
    /// comparison.
    fn eq(&self, other: &Self) -> bool {
        self.serial == other.serial
    }
}

impl<T> vstd::std_specs::cmp::PartialEqSpecImpl for Id<T> {
    open spec fn obeys_eq_spec() -> bool {
        true
    }

    open spec fn eq_spec(&self, other: &Id<T>) -> bool {
        self@ == other@
    }
}

impl<T> PartialOrd for Id<T> {
    /// Handles order by identity.
    fn partial_cmp(&self, other: &Self) -> Option<core::cmp::Ordering> {
        if self.serial < other.serial {
            Some(core::cmp::Ordering::Less)
        } else if self.serial == other.serial {
            Some(core::cmp::Ordering::Equal)
        } else {
            Some(core::cmp::Ordering::Greater)
        }
    }
}

impl<T> vstd::std_specs::cmp::PartialOrdSpecImpl for Id<T> {
    open spec fn obeys_partial_cmp_spec() -> bool {
        true
    }

    open spec fn partial_cmp_spec(&self, other: &Id<T>) -> Option<core::cmp::Ordering> {
        if self@ < other@ {
            Some(core::cmp::Ordering::Less)
        } else if self@ == other@ {
            Some(core::cmp::Ordering::Equal)
        } else {
            Some(core::cmp::Ordering::Greater)
        }
    }
}

/// Allocate shared unique identities.
///
/// An allocator is, abstractly, a table of entries stepping as the model
/// functions in [`crate::model`] describe: `allocate` is insert-or-find, and
/// `delete_unused` sweeps the entries without outstanding handles.
pub trait Allocator<T: Eq>: Sized + Default {
    /// The abstract table state.
    spec fn model(&self) -> AllocModel<T>;

    /// The invariant that every operation preserves.
    spec fn inv(&self) -> bool;

    /// Recycle a value if possible, or allocate a new one.
    ///
    /// The returned handle denotes the one entry whose value equals `t`:
    /// pre-existing if `t` was already interned, fresh otherwise.
    fn allocate(&mut self, t: T) -> (r: Id<T>)
        requires
            old(self).inv(),
            obeys_concrete_eq::<T>(),
            can_intern(old(self).model(), t),
        ensures
            final(self).inv(),
            final(self).model() == spec_intern(old(self).model(), t).0,
            r@ == spec_intern(old(self).model(), t).1,
    ;

    /// The current number of allocations.
    fn allocations(&self) -> (n: usize)
        ensures
            n == self.model().entries.len(),
    ;

    /// Sweep for unused values and delete them.
    ///
    /// Exactly the entries with no outstanding handle are removed.  The
    /// serial counter is kept, so re-interning a swept value later yields a
    /// fresh identity, never the old one.
    fn delete_unused(&mut self)
        requires
            old(self).inv(),
        ensures
            final(self).inv(),
            final(self).model() == spec_collect(old(self).model()),
    ;
}

/// A type which has some allocator.
///
/// The registration contract: a value type declares which allocator type
/// canonicalizes it, which allows the generic [`Id::new`].  The caller
/// constructs the allocator and passes it explicitly, so the lifetime of the
/// table — which every handle must not outlive — is in the open.
pub trait Allocated: Eq + Sized {
    type Alloc: Allocator<Self>;
}

impl<T: Allocated> Id<T> {
    /// Get a handle to (something value-equal to) `t` out of `alloc`.
    pub fn new(t: T, alloc: &mut T::Alloc) -> (r: Self)
        requires
            old(alloc).inv(),
            obeys_concrete_eq::<T>(),
            can_intern(old(alloc).model(), t),
        ensures
            final(alloc).inv(),
            final(alloc).model() == spec_intern(old(alloc).model(), t).0,
            r@ == spec_intern(old(alloc).model(), t).1,
    {
        alloc.allocate(t)
    }
}

} // verus!
