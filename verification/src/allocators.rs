//! Possible allocators to use.

use vstd::prelude::*;

use crate::model::{
    can_intern, empty_model, has_serial, serial_index, spec_collect, spec_intern, strong_of,
    value_at, wf_model, AllocModel, EntryModel,
};
use crate::{Allocator, Id};
use vstd::laws_eq::obeys_concrete_eq;

verus! {

/// One table record: the interned value, the stable serial all handles for
/// it carry, and the count of handles issued and not yet released.
struct Entry<T> {
    value: T,
    serial: usize,
    strong: usize,
}

/// An allocator backed by an arena of entries addressed by stable serial
/// numbers.
///
/// The arena keeps one entry per distinct value.  Handles carry the entry's
/// serial, which is minted from a counter that only grows: once an entry is
/// swept, its serial is never issued again, so a stale identity can never
/// collide with a fresh one.
pub struct HashAllocator<T> {
    entries: Vec<Entry<T>>,
    next: usize,
}

impl<T> View for HashAllocator<T> {
    type V = AllocModel<T>;

    closed spec fn view(&self) -> AllocModel<T> {
        AllocModel {
            entries: self.entries@.map(
                |i: int, e: Entry<T>| EntryModel { value: e.value, serial: e.serial, strong: e.strong },
            ),
            next: self.next,
        }
    }
}

impl<T> Default for HashAllocator<T> {
    /// An empty allocator.
    fn default() -> (r: Self)
        ensures
            r@ == empty_model::<T>(),
            wf_model(r@),
    {
        let r = HashAllocator { entries: Vec::new(), next: 0 };
        proof {
            assert(r@.entries =~= empty_model::<T>().entries);
        }
        r
    }
}

impl<T: Eq> Allocator<T> for HashAllocator<T> {
    open spec fn model(&self) -> AllocModel<T> {
        self@
    }

    open spec fn inv(&self) -> bool {
        wf_model(self@)
    }

    fn allocate(&mut self, t: T) -> (r: Id<T>) {
        proof {
            reveal(vstd::laws_eq::obeys_concrete_eq);
        }
        let n = self.entries.len();
        let mut i: usize = 0;
        while i < n
            invariant
                obeys_concrete_eq::<T>(),
                wf_model(old(self)@),
                can_intern(old(self)@, t),
                self == old(self),
                n == self@.entries.len(),
                i <= n,
                forall|j: int| 0 <= j < i ==> (#[trigger] self@.entries[j]).value != t,
            decreases n - i,
        {
            proof {
                reveal(vstd::laws_eq::obeys_concrete_eq);
            }
            if self.entries[i].value == t {
                proof {
                    assert(crate::model::has_value(old(self)@, t)) by {
                        assert(old(self)@.entries[i as int].value == t);
                    }
                    assert(crate::model::value_index(old(self)@, t) == i as int) by {
                        let k = crate::model::value_index(old(self)@, t);
                        assert(0 <= k < old(self)@.entries.len() && old(self)@.entries[k].value
                            == t);
                        assert(old(self)@.entries[i as int].value == t);
                        if k != i as int {
                            assert(old(self)@.entries[k].value != old(
                                self,
                            )@.entries[i as int].value);
                        }
                    }
                }
                let s = self.entries[i].serial;
                let cur = self.entries[i].strong;
                self.entries[i].strong = cur + 1;
                proof {
                    let m = old(self)@;
                    assert(self@.entries =~= m.entries.update(
                        i as int,
                        crate::model::bump_strong(m.entries[i as int]),
                    ));
                    assert(self@ == spec_intern(m, t).0);
                }
                return Id::from_serial(s);
            }
            i = i + 1;
        }
        proof {
            assert(!crate::model::has_value(old(self)@, t)) by {
                if crate::model::has_value(old(self)@, t) {
                    let k = crate::model::value_index(old(self)@, t);
                    assert(old(self)@.entries[k].value != t);
                }
            }
        }
        let s = self.next;
        self.next = self.next + 1;
        self.entries.push(Entry { value: t, serial: s, strong: 1 });
        proof {
            let m = old(self)@;
            assert(self@.entries =~= m.entries.push(
                EntryModel { value: t, serial: m.next, strong: 1 },
            ));
            assert(self@ == spec_intern(m, t).0);
            assert forall|a: int, b: int|
                0 <= a < self@.entries.len() && 0 <= b < self@.entries.len() && a != b
                    implies (#[trigger] self@.entries[a]).value != (#[trigger] self@.entries[b]).value by {
                if a < m.entries.len() && b < m.entries.len() {
                    assert(m.entries[a].value != m.entries[b].value);
                }
            }
        }
        Id::from_serial(s)
    }

    fn allocations(&self) -> (n: usize) {
        self.entries.len()
    }

    fn delete_unused(&mut self) {
        proof {
            crate::model::lemma_collect_wf(old(self)@);
        }
        let n0 = self.entries.len();
        let mut j: usize = 0;
        let mut i: usize = 0;
        while i < self.entries.len()
            invariant
                wf_model(old(self)@),
                n0 == old(self)@.entries.len(),
                self@.next == old(self)@.next,
                j <= n0,
                i <= self@.entries.len(),
                i as int == old(self)@.entries.subrange(0, j as int).filter(
                    |e: EntryModel<T>| crate::model::is_live(e),
                ).len(),
                self@.entries == old(self)@.entries.subrange(0, j as int).filter(
                    |e: EntryModel<T>| crate::model::is_live(e),
                ) + old(self)@.entries.subrange(j as int, n0 as int),
            decreases n0 - j,
        {
            let live = self.entries[i].strong > 0;
            proof {
                let pred = |e: EntryModel<T>| crate::model::is_live(e);
                let pre = old(self)@.entries.subrange(0, j as int);
                let pre1 = old(self)@.entries.subrange(0, j as int + 1);
                assert(j < n0);
                assert(pre1.len() == j + 1);
                assert(pre1.drop_last() =~= pre);
                assert(pre1.last() == old(self)@.entries[j as int]);
                assert(self@.entries[i as int] == old(self)@.entries[j as int]);
                reveal(Seq::filter);
                assert(pre1.filter(pred) == (if pred(pre1.last()) {
                    pre.filter(pred).push(pre1.last())
                } else {
                    pre.filter(pred)
                }));
            }
            if live {
                i = i + 1;
                proof {
                    let pred = |e: EntryModel<T>| crate::model::is_live(e);
                    assert(self@.entries =~= old(self)@.entries.subrange(0, j as int + 1).filter(
                        pred,
                    ) + old(self)@.entries.subrange(j as int + 1, n0 as int));
                }
            } else {
                self.entries.remove(i);
                proof {
                    let pred = |e: EntryModel<T>| crate::model::is_live(e);
                    let pre = old(self)@.entries.subrange(0, j as int);
                    let pre1 = old(self)@.entries.subrange(0, j as int + 1);
                    let f = pre.filter(pred);
                    let prev = f + old(self)@.entries.subrange(j as int, n0 as int);
                    let target = pre1.filter(pred) + old(self)@.entries.subrange(
                        j as int + 1,
                        n0 as int,
                    );
                    assert(pre1.filter(pred) == f);
                    assert(self@.entries == prev.remove(i as int));
                    assert(prev.remove(i as int).len() == target.len());
                    assert forall|k: int| 0 <= k < target.len() implies prev.remove(
                        i as int,
                    )[k] == target[k] by {
                        if k < f.len() {
                            assert(prev.remove(i as int)[k] == prev[k]);
                        } else {
                            assert(prev.remove(i as int)[k] == prev[k + 1]);
                            assert(prev[k + 1] == old(self)@.entries[j as int + (k + 1 - f.len())]);
                            assert(target[k] == old(self)@.entries[j as int + 1 + (k - f.len())]);
                        }
                    }
                    assert(self@.entries =~= target);
                }
            }
            j = j + 1;
        }
        proof {
            assert(j == n0);
            assert(old(self)@.entries.subrange(0, n0 as int) =~= old(self)@.entries);
            assert(self@.entries =~= spec_collect(old(self)@).entries);
        }
    }
}

impl<T: Eq> HashAllocator<T> {
    /// Find the arena index of the entry carrying serial `s`.
    fn find_serial(&self, s: usize) -> (idx: usize)
        requires
            wf_model(self@),
            has_serial(self@, s),
        ensures
            idx < self@.entries.len(),
            idx as int == serial_index(self@, s),
            self@.entries[idx as int].serial == s,
    {
        let n = self.entries.len();
        let mut i: usize = 0;
        while i < n
            invariant
                wf_model(self@),
                has_serial(self@, s),
                n == self@.entries.len(),
                i <= n,
                forall|k: int| 0 <= k < i ==> (#[trigger] self@.entries[k]).serial != s,
            decreases n - i,
        {
            if self.entries[i].serial == s {
                proof {
                    let k = serial_index(self@, s);
                    assert(self@.entries[k].serial == s);
                    if k != i as int {
                        assert(self@.entries[k].serial != self@.entries[i as int].serial);
                    }
                }
                return i;
            }
            i = i + 1;
        }
        proof {
            let k = serial_index(self@, s);
            assert(self@.entries[k].serial == s);
            assert(false);
        }
        vstd::pervasive::unreached()
    }

    /// Dereference a handle issued by this allocator: the stored value of
    /// the entry the handle denotes.
    pub fn value_of(&self, h: &Id<T>) -> (r: &T)
        requires
            wf_model(self@),
            has_serial(self@, h@),
        ensures
            *r == value_at(self@, h@),
    {
        let idx = self.find_serial(Id::id(h));
        &self.entries[idx].value
    }

    /// Issue another handle for the entry `h` denotes: the entry's strong
    /// count grows by one and the new handle carries the same identity.
    /// This takes the place of cloning a handle directly, so that the
    /// allocator sees every handle it must account for.
    pub fn clone_id(&mut self, h: &Id<T>) -> (r: Id<T>)
        requires
            wf_model(old(self)@),
            has_serial(old(self)@, h@),
            strong_of(old(self)@, h@) < usize::MAX,
        ensures
            wf_model(final(self)@),
            final(self)@.entries == old(self)@.entries.update(
                serial_index(old(self)@, h@),
                crate::model::bump_strong(old(self)@.entries[serial_index(old(self)@, h@)]),
            ),
            final(self)@.next == old(self)@.next,
            r@ == h@,
            has_serial(final(self)@, h@),
            strong_of(final(self)@, h@) == strong_of(old(self)@, h@) + 1,
            value_at(final(self)@, h@) == value_at(old(self)@, h@),
    {
        let idx = self.find_serial(Id::id(h));
        let cur = self.entries[idx].strong;
        self.entries[idx].strong = cur + 1;
        proof {
            let gi = serial_index(old(self)@, h@);
            assert(self@.entries =~= old(self)@.entries.update(
                gi,
                crate::model::bump_strong(old(self)@.entries[gi]),
            ));
            crate::model::lemma_update_strong_wf(old(self)@, self@);
            assert(has_serial(self@, h@)) by {
                assert(self@.entries[gi].serial == h@);
            }
            assert(serial_index(self@, h@) == gi) by {
                let k = serial_index(self@, h@);
                assert(self@.entries[k].serial == h@);
                if k != gi {
                    assert(self@.entries[k].serial != self@.entries[gi].serial);
                }
            }
        }
        Id::from_serial(Id::id(h))
    }

    /// Give a handle back: the entry's strong count drops by one.  At zero
    /// the entry is not removed — it merely becomes eligible for the next
    /// `delete_unused` sweep.
    pub fn release(&mut self, h: Id<T>)
        requires
            wf_model(old(self)@),
            has_serial(old(self)@, h@),
            strong_of(old(self)@, h@) >= 1,
        ensures
            wf_model(final(self)@),
            final(self)@.entries == old(self)@.entries.update(
                serial_index(old(self)@, h@),
                crate::model::drop_strong(old(self)@.entries[serial_index(old(self)@, h@)]),
            ),
            final(self)@.next == old(self)@.next,
            has_serial(final(self)@, h@),
            strong_of(final(self)@, h@) == strong_of(old(self)@, h@) - 1,
            value_at(final(self)@, h@) == value_at(old(self)@, h@),
    {
        let idx = self.find_serial(Id::id(&h));
        let cur = self.entries[idx].strong;
        self.entries[idx].strong = cur - 1;
        proof {
            let gi = serial_index(old(self)@, h@);
            assert(self@.entries =~= old(self)@.entries.update(
                gi,
                crate::model::drop_strong(old(self)@.entries[gi]),
            ));
            crate::model::lemma_update_strong_wf(old(self)@, self@);
            assert(has_serial(self@, h@)) by {
                assert(self@.entries[gi].serial == h@);
            }
            assert(serial_index(self@, h@) == gi) by {
                let k = serial_index(self@, h@);
                assert(self@.entries[k].serial == h@);
                if k != gi {
                    assert(self@.entries[k].serial != self@.entries[gi].serial);
                }
            }
        }
    }

    /// Recycle `h` when its value equals `t`: the fast path returns a
    /// handle with `h`'s own identity and leaves the entry count untouched.
    /// Otherwise this behaves exactly as `allocate(t)`.
    pub fn reuse(&mut self, h: &Id<T>, t: T) -> (r: Id<T>)
        requires
            wf_model(old(self)@),
            obeys_concrete_eq::<T>(),
            has_serial(old(self)@, h@),
            value_at(old(self)@, h@) == t ==> strong_of(old(self)@, h@) < usize::MAX,
            value_at(old(self)@, h@) != t ==> can_intern(old(self)@, t),
        ensures
            wf_model(final(self)@),
            value_at(old(self)@, h@) == t ==> (final(self)@.entries == old(self)@.entries.update(
                serial_index(old(self)@, h@),
                crate::model::bump_strong(old(self)@.entries[serial_index(old(self)@, h@)]),
            ) && final(self)@.next == old(self)@.next && final(self)@.entries.len() == old(
                self,
            )@.entries.len() && r@ == h@),
            value_at(old(self)@, h@) != t ==> (final(self)@ == spec_intern(old(self)@, t).0 && r@
                == spec_intern(old(self)@, t).1),
    {
        proof {
            reveal(vstd::laws_eq::obeys_concrete_eq);
        }
        let same = *self.value_of(h) == t;
        if same {
            self.clone_id(h)
        } else {
            self.allocate(t)
        }
    }
}

} // verus!
