//! The mathematical model of an interning table.
//!
//! A table is a sequence of entries in insertion order, together with the
//! serial number that the next fresh entry will receive.  Every entry owns
//! one value, carries the stable serial that all handles for that value
//! share, and counts the handles issued for it and not yet released.
//!
//! The executable tables in this crate promise, in their contracts, to step
//! their model exactly as [`spec_intern`] and [`spec_collect`] describe; the
//! laws of interning are proved here, once, about those two functions.

use vstd::prelude::*;

verus! {

/// Ghost record of one table entry: the stored value, the stable serial that
/// serves as its identity, and its strong (handle) count.
pub ghost struct EntryModel<T> {
    pub value: T,
    pub serial: usize,
    pub strong: usize,
}

/// Ghost state of an interning table.
pub ghost struct AllocModel<T> {
    pub entries: Seq<EntryModel<T>>,
    pub next: usize,
}

/// The state of a freshly created table.
pub open spec fn empty_model<T>() -> AllocModel<T> {
    AllocModel { entries: Seq::empty(), next: 0 }
}

/// No two entries hold equal values: one canonical entry per value.
pub open spec fn values_distinct<T>(m: AllocModel<T>) -> bool {
    forall|i: int, j: int|
        0 <= i < m.entries.len() && 0 <= j < m.entries.len() && i != j
            ==> (#[trigger] m.entries[i]).value != (#[trigger] m.entries[j]).value
}

/// Serial numbers identify entries uniquely.
pub open spec fn serials_distinct<T>(m: AllocModel<T>) -> bool {
    forall|i: int, j: int|
        0 <= i < m.entries.len() && 0 <= j < m.entries.len() && i != j
            ==> (#[trigger] m.entries[i]).serial != (#[trigger] m.entries[j]).serial
}

/// Every serial already issued lies below the counter for fresh ones.
pub open spec fn serials_below_next<T>(m: AllocModel<T>) -> bool {
    forall|i: int| 0 <= i < m.entries.len() ==> (#[trigger] m.entries[i]).serial < m.next
}

/// Well-formedness of a table state.
pub open spec fn wf_model<T>(m: AllocModel<T>) -> bool {
    &&& values_distinct(m)
    &&& serials_distinct(m)
    &&& serials_below_next(m)
}

/// Some entry holds a value equal to `t`.
pub open spec fn has_value<T>(m: AllocModel<T>, t: T) -> bool {
    exists|i: int| 0 <= i < m.entries.len() && (#[trigger] m.entries[i]).value == t
}

/// The index of the entry holding `t` (meaningful when `has_value` holds;
/// unique when the values are distinct).
pub open spec fn value_index<T>(m: AllocModel<T>, t: T) -> int {
    choose|i: int| 0 <= i < m.entries.len() && (#[trigger] m.entries[i]).value == t
}

/// Some entry carries the serial `s`.
pub open spec fn has_serial<T>(m: AllocModel<T>, s: usize) -> bool {
    exists|i: int| 0 <= i < m.entries.len() && (#[trigger] m.entries[i]).serial == s
}

/// The index of the entry carrying serial `s` (meaningful when `has_serial`
/// holds; unique when the serials are distinct).
pub open spec fn serial_index<T>(m: AllocModel<T>, s: usize) -> int {
    choose|i: int| 0 <= i < m.entries.len() && (#[trigger] m.entries[i]).serial == s
}

/// The strong count of the entry carrying serial `s`.
pub open spec fn strong_of<T>(m: AllocModel<T>, s: usize) -> usize {
    m.entries[serial_index(m, s)].strong
}

/// The value stored under serial `s`.
pub open spec fn value_at<T>(m: AllocModel<T>, s: usize) -> T {
    m.entries[serial_index(m, s)].value
}

/// The counter that interning `t` would step has room: the matching entry's
/// strong count, or the serial counter for a fresh entry.
pub open spec fn can_intern<T>(m: AllocModel<T>, t: T) -> bool {
    if has_value(m, t) {
        m.entries[value_index(m, t)].strong < usize::MAX
    } else {
        m.next < usize::MAX
    }
}

/// One more handle issued for an existing entry.
pub open spec fn bump_strong<T>(e: EntryModel<T>) -> EntryModel<T> {
    EntryModel { strong: (e.strong + 1) as usize, ..e }
}

/// Insert-or-find.  When a value equal to `t` is already interned, its entry
/// gains one handle and keeps its serial; otherwise a fresh entry with a
/// fresh serial is appended.  Returns the new state and the serial that the
/// returned handle carries.
pub open spec fn spec_intern<T>(m: AllocModel<T>, t: T) -> (AllocModel<T>, usize) {
    if has_value(m, t) {
        let i = value_index(m, t);
        (
            AllocModel { entries: m.entries.update(i, bump_strong(m.entries[i])), next: m.next },
            m.entries[i].serial,
        )
    } else {
        (
            AllocModel {
                entries: m.entries.push(EntryModel { value: t, serial: m.next, strong: 1 }),
                next: (m.next + 1) as usize,
            },
            m.next,
        )
    }
}

/// An entry with at least one outstanding handle.
pub open spec fn is_live<T>(e: EntryModel<T>) -> bool {
    e.strong > 0
}

/// The sweep: every entry without an outstanding handle is removed; the
/// serial counter is kept, so a removed serial is never reissued.
pub open spec fn spec_collect<T>(m: AllocModel<T>) -> AllocModel<T> {
    AllocModel { entries: m.entries.filter(|e: EntryModel<T>| is_live(e)), next: m.next }
}

/// How many entries have no outstanding handle.
pub open spec fn dead_count<T>(m: AllocModel<T>) -> nat {
    m.entries.filter(|e: EntryModel<T>| !is_live(e)).len()
}

/// One handle released for an existing entry.
pub open spec fn drop_strong<T>(e: EntryModel<T>) -> EntryModel<T> {
    EntryModel { strong: (e.strong - 1) as usize, ..e }
}

/// No two elements of the sequence are equal.
pub open spec fn all_distinct<T>(s: Seq<T>) -> bool {
    forall|i: int, j: int| 0 <= i < s.len() && 0 <= j < s.len() && i != j ==> s[i] != s[j]
}

/// How many values of `vs` are not equal to an earlier one: the number of
/// equivalence classes that interning `vs` in order creates.
pub open spec fn distinct_count<T>(vs: Seq<T>) -> nat
    decreases vs.len(),
{
    if vs.len() == 0 {
        0
    } else {
        distinct_count(vs.drop_last()) + (if vs.drop_last().contains(vs.last()) {
            0nat
        } else {
            1nat
        })
    }
}

/// Intern every value of `vs`, in order.
pub open spec fn spec_intern_all<T>(m: AllocModel<T>, vs: Seq<T>) -> AllocModel<T>
    decreases vs.len(),
{
    if vs.len() == 0 {
        m
    } else {
        spec_intern(spec_intern_all(m, vs.drop_last()), vs.last()).0
    }
}

/// Everything a filtered sequence holds was in the original sequence.
proof fn lemma_filter_contained<T>(s: Seq<T>, pred: spec_fn(T) -> bool)
    ensures
        forall|k: int| 0 <= k < s.filter(pred).len() ==> s.contains(#[trigger] s.filter(pred)[k]),
    decreases s.len(),
{
    reveal(Seq::filter);
    if s.len() > 0 {
        let dl = s.drop_last();
        lemma_filter_contained(dl, pred);
        assert forall|k: int| 0 <= k < s.filter(pred).len() implies s.contains(
            #[trigger] s.filter(pred)[k],
        ) by {
            if pred(s.last()) && k == s.filter(pred).len() - 1 {
                assert(s.filter(pred)[k] == s.last());
                assert(s[s.len() - 1] == s.last());
            } else {
                assert(s.filter(pred)[k] == dl.filter(pred)[k]);
                assert(dl.contains(dl.filter(pred)[k]));
                let j = choose|j: int| 0 <= j < dl.len() && dl[j] == dl.filter(pred)[k];
                assert(s[j] == dl.filter(pred)[k]);
            }
        }
    }
}

/// The sweep preserves well-formedness: what survives still holds pairwise
/// distinct values under pairwise distinct serials, all below the counter.
pub proof fn lemma_collect_wf<T>(m: AllocModel<T>)
    requires
        wf_model(m),
    ensures
        wf_model(spec_collect(m)),
    decreases m.entries.len(),
{
    reveal(Seq::filter);
    let pred = |e: EntryModel<T>| is_live(e);
    if m.entries.len() > 0 {
        let dl = AllocModel { entries: m.entries.drop_last(), next: m.next };
        assert(wf_model(dl)) by {
            assert(forall|i: int| 0 <= i < dl.entries.len() ==> dl.entries[i] == m.entries[i]);
        }
        lemma_collect_wf(dl);
        lemma_filter_contained(dl.entries, pred);
        let last = m.entries.last();
        let f = dl.entries.filter(pred);
        let res = spec_collect(m).entries;
        assert(spec_collect(dl).entries == f);
        if pred(last) {
            assert(res == f.push(last));
            assert forall|k: int| 0 <= k < f.len() implies f[k].value != last.value
                && f[k].serial != last.serial by {
                assert(dl.entries.contains(f[k]));
                let j = choose|j: int| 0 <= j < dl.entries.len() && dl.entries[j] == f[k];
                assert(m.entries[j] == f[k]);
                assert(m.entries[j].value != m.entries[m.entries.len() - 1].value);
                assert(m.entries[j].serial != m.entries[m.entries.len() - 1].serial);
            }
            assert(last.serial < m.next) by {
                assert(m.entries[m.entries.len() - 1].serial < m.next);
            }
        } else {
            assert(res == f);
        }
    }
}

/// The sweep removes exactly the entries without an outstanding handle:
/// the count drops by the number of fully-unreferenced entries.
pub proof fn lemma_collect_count<T>(m: AllocModel<T>)
    ensures
        spec_collect(m).entries.len() == m.entries.len() - dead_count(m),
    decreases m.entries.len(),
{
    reveal(Seq::filter);
    if m.entries.len() > 0 {
        let dl = AllocModel { entries: m.entries.drop_last(), next: m.next };
        lemma_collect_count(dl);
    }
}

/// The sweep never removes an entry with an outstanding handle: safety of
/// collection.  The surviving entry keeps its serial, value and count.
pub proof fn lemma_collect_keeps_live<T>(m: AllocModel<T>, s: usize)
    requires
        wf_model(m),
        has_serial(m, s),
        strong_of(m, s) > 0,
    ensures
        has_serial(spec_collect(m), s),
        value_at(spec_collect(m), s) == value_at(m, s),
        strong_of(spec_collect(m), s) == strong_of(m, s),
{
    let pred = |e: EntryModel<T>| is_live(e);
    let i = serial_index(m, s);
    let e = m.entries[i];
    m.entries.lemma_filter_contains(pred, i);
    let f = spec_collect(m).entries;
    let k = choose|k: int| 0 <= k < f.len() && f[k] == e;
    assert(has_serial(spec_collect(m), s)) by {
        assert(f[k].serial == s);
    }
    lemma_collect_wf(m);
    let k2 = serial_index(spec_collect(m), s);
    assert(f[k2].serial == s);
    assert(k2 == k);
}

/// Once an unreferenced entry is swept, its identity is dead for good:
/// interning anything afterwards — the same value included — never returns
/// the swept serial, because the counter that mints fresh serials is kept.
pub proof fn lemma_collect_fresh_identity<T>(m: AllocModel<T>, s: usize, v: T)
    requires
        wf_model(m),
        has_serial(m, s),
        strong_of(m, s) == 0,
    ensures
        !has_serial(spec_collect(m), s),
        spec_intern(spec_collect(m), v).1 != s,
{
    let pred = |e: EntryModel<T>| is_live(e);
    let mc = spec_collect(m);
    let f = mc.entries;
    lemma_filter_contained(m.entries, pred);
    assert(!has_serial(mc, s)) by {
        if has_serial(mc, s) {
            let k = serial_index(mc, s);
            assert(f[k].serial == s);
            assert(m.entries.contains(f[k]));
            let j = choose|j: int| 0 <= j < m.entries.len() && m.entries[j] == f[k];
            assert(j == serial_index(m, s)) by {
                assert(m.entries[j].serial == s);
                assert(m.entries[serial_index(m, s)].serial == s);
            }
            assert(!pred(m.entries[j]));
            m.entries.lemma_filter_pred(pred, k);
        }
    }
    if has_value(mc, v) {
        let i = value_index(mc, v);
        assert(f[i].serial != s) by {
            if f[i].serial == s {
                assert(has_serial(mc, s));
            }
        }
    } else {
        assert(m.entries[serial_index(m, s)].serial < m.next);
    }
}

/// What one interning step does to a well-formed table: well-formedness is
/// preserved, the returned serial denotes the one entry holding the value,
/// every value interned before stays interned, and the entry count grows
/// exactly when the value was new.
pub proof fn lemma_intern_wf<T>(m: AllocModel<T>, t: T)
    requires
        wf_model(m),
        has_value(m, t) || m.next < usize::MAX,
    ensures
        wf_model(spec_intern(m, t).0),
        has_serial(spec_intern(m, t).0, spec_intern(m, t).1),
        value_at(spec_intern(m, t).0, spec_intern(m, t).1) == t,
        spec_intern(m, t).0.next >= m.next,
        forall|x: T| has_value(spec_intern(m, t).0, x) <==> (has_value(m, x) || x == t),
        spec_intern(m, t).0.entries.len() == m.entries.len() + (if has_value(m, t) {
            0int
        } else {
            1int
        }),
{
    let m1 = spec_intern(m, t).0;
    let s1 = spec_intern(m, t).1;
    if has_value(m, t) {
        let i = value_index(m, t);
        assert(m.entries[i].value == t);
        assert(forall|k: int|
            0 <= k < m1.entries.len() ==> (#[trigger] m1.entries[k]).value == m.entries[k].value
                && m1.entries[k].serial == m.entries[k].serial);
        assert(has_serial(m1, s1)) by {
            assert(m1.entries[i].serial == s1);
        }
        assert(value_at(m1, s1) == t) by {
            let k = serial_index(m1, s1);
            assert(m1.entries[k].serial == s1);
            assert(m.entries[i].serial == s1);
            assert(k == i);
        }
        assert forall|x: T| has_value(m1, x) <==> (has_value(m, x) || x == t) by {
            if has_value(m1, x) {
                let k = value_index(m1, x);
                assert(m.entries[k].value == x);
                assert(has_value(m, x));
            }
            if has_value(m, x) {
                let k = value_index(m, x);
                assert(m1.entries[k].value == x);
                assert(has_value(m1, x));
            }
            if x == t {
                assert(m1.entries[i].value == x);
                assert(has_value(m1, x));
            }
        }
    } else {
        let n = m.entries.len() as int;
        assert(m1.entries[n] == EntryModel { value: t, serial: m.next, strong: 1usize });
        assert(forall|k: int| 0 <= k < n ==> m1.entries[k] == m.entries[k]);
        assert(values_distinct(m1)) by {
            assert forall|a: int, b: int|
                0 <= a < m1.entries.len() && 0 <= b < m1.entries.len() && a != b implies (
            #[trigger] m1.entries[a]).value != (#[trigger] m1.entries[b]).value by {
                if a < n && b < n {
                    assert(m.entries[a].value != m.entries[b].value);
                } else if a == n {
                    assert(!(m.entries[b].value == t));
                } else {
                    assert(!(m.entries[a].value == t));
                }
            }
        }
        assert(serials_distinct(m1) && serials_below_next(m1)) by {
            assert forall|a: int, b: int|
                0 <= a < m1.entries.len() && 0 <= b < m1.entries.len() && a != b implies (
            #[trigger] m1.entries[a]).serial != (#[trigger] m1.entries[b]).serial by {
                if a < n && b < n {
                    assert(m.entries[a].serial != m.entries[b].serial);
                } else if a == n {
                    assert(m.entries[b].serial < m.next);
                } else {
                    assert(m.entries[a].serial < m.next);
                }
            }
            assert forall|k: int| 0 <= k < m1.entries.len() implies (
            #[trigger] m1.entries[k]).serial < m1.next by {
                if k < n {
                    assert(m.entries[k].serial < m.next);
                }
            }
        }
        assert(has_serial(m1, s1)) by {
            assert(m1.entries[n].serial == s1);
        }
        assert(value_at(m1, s1) == t) by {
            let k = serial_index(m1, s1);
            assert(m1.entries[k].serial == s1);
            if k != n {
                assert(m.entries[k].serial < m.next);
            }
        }
        assert forall|x: T| has_value(m1, x) <==> (has_value(m, x) || x == t) by {
            if has_value(m1, x) {
                let k = value_index(m1, x);
                assert(m1.entries[k].value == x);
                if k < n {
                    assert(m.entries[k].value == x);
                    assert(has_value(m, x));
                }
            }
            if has_value(m, x) {
                let k = value_index(m, x);
                assert(m1.entries[k].value == x);
                assert(has_value(m1, x));
            }
            if x == t {
                assert(m1.entries[n].value == x);
                assert(has_value(m1, x));
            }
        }
    }
}

/// Touching only strong counts — no value, serial, or length changes —
/// preserves well-formedness.
pub proof fn lemma_update_strong_wf<T>(m: AllocModel<T>, m2: AllocModel<T>)
    requires
        wf_model(m),
        m2.next == m.next,
        m2.entries.len() == m.entries.len(),
        forall|k: int|
            0 <= k < m.entries.len() ==> (#[trigger] m2.entries[k]).value == m.entries[k].value
                && m2.entries[k].serial == m.entries[k].serial,
    ensures
        wf_model(m2),
{
    assert forall|a: int, b: int|
        0 <= a < m2.entries.len() && 0 <= b < m2.entries.len() && a != b implies (
    #[trigger] m2.entries[a]).value != (#[trigger] m2.entries[b]).value && m2.entries[a].serial
        != m2.entries[b].serial by {
        assert(m.entries[a].value != m.entries[b].value);
        assert(m.entries[a].serial != m.entries[b].serial);
    }
    assert forall|k: int| 0 <= k < m2.entries.len() implies (#[trigger] m2.entries[k]).serial
        < m2.next by {
        assert(m.entries[k].serial < m.next);
    }
}

/// Interning never disturbs the entry another handle denotes: every serial
/// already issued keeps its value, and keeps its strong count unless it is
/// the interned value's own entry.  Together with
/// [`lemma_collect_keeps_live`] this makes an identity stable across any
/// later traffic, as long as its entry keeps an outstanding handle.
pub proof fn lemma_intern_preserves<T>(m: AllocModel<T>, t: T, s: usize)
    requires
        wf_model(m),
        has_serial(m, s),
    ensures
        has_serial(spec_intern(m, t).0, s),
        value_at(spec_intern(m, t).0, s) == value_at(m, s),
        spec_intern(m, t).1 != s ==> strong_of(spec_intern(m, t).0, s) == strong_of(m, s),
{
    let m1 = spec_intern(m, t).0;
    let k = serial_index(m, s);
    assert(m.entries[k].serial == s);
    if has_value(m, t) {
        let i = value_index(m, t);
        assert(m1.entries[k].serial == s);
        assert(has_serial(m1, s));
        assert(serial_index(m1, s) == k) by {
            let k2 = serial_index(m1, s);
            assert(m1.entries[k2].serial == s);
            if k2 != k {
                assert(m.entries[k2].serial != m.entries[k].serial);
            }
        }
        if spec_intern(m, t).1 != s {
            assert(k != i);
        }
    } else {
        assert(m1.entries[k].serial == s);
        assert(has_serial(m1, s));
        assert(serial_index(m1, s) == k) by {
            let k2 = serial_index(m1, s);
            assert(m1.entries[k2].serial == s);
            if k2 != k {
                if k2 == m.entries.len() {
                    assert(m.entries[k].serial < m.next);
                } else {
                    assert(m.entries[k2].serial != m.entries[k].serial);
                }
            }
        }
    }
}

/// Canonicalization: interning two equal values, one after the other,
/// returns the same identity both times.
pub proof fn lemma_intern_canonical<T>(m: AllocModel<T>, a: T, b: T)
    requires
        wf_model(m),
        can_intern(m, a),
        a == b,
    ensures
        spec_intern(spec_intern(m, a).0, b).1 == spec_intern(m, a).1,
{
    lemma_intern_wf(m, a);
    let m1 = spec_intern(m, a).0;
    let s1 = spec_intern(m, a).1;
    assert(has_value(m1, b));
    let i2 = value_index(m1, b);
    let i1 = serial_index(m1, s1);
    assert(m1.entries[i1].serial == s1);
    assert(m1.entries[i1].value == a);
    assert(m1.entries[i2].value == b);
    assert(i1 == i2);
}

/// Distinction: interning two unequal values, one after the other, returns
/// two distinct identities.
pub proof fn lemma_intern_distinct<T>(m: AllocModel<T>, a: T, b: T)
    requires
        wf_model(m),
        can_intern(m, a),
        a != b,
    ensures
        spec_intern(spec_intern(m, a).0, b).1 != spec_intern(m, a).1,
{
    lemma_intern_wf(m, a);
    let m1 = spec_intern(m, a).0;
    let s1 = spec_intern(m, a).1;
    let i1 = serial_index(m1, s1);
    assert(m1.entries[i1].serial == s1);
    assert(m1.entries[i1].value == a);
    if has_value(m1, b) {
        let i2 = value_index(m1, b);
        assert(m1.entries[i2].value == b);
        if m1.entries[i2].serial == s1 {
            assert(i2 == i1);
            assert(false);
        }
    } else {
        assert(m1.entries[i1].serial < m1.next);
    }
}

/// Count monotonicity under no collection: interning a stream of values
/// into a fresh table leaves exactly one entry per distinct value, no
/// matter how often duplicates of already-seen values occur in between.
pub proof fn lemma_intern_all_count<T>(vs: Seq<T>)
    requires
        distinct_count(vs) <= usize::MAX,
    ensures
        wf_model(spec_intern_all(empty_model::<T>(), vs)),
        forall|x: T| has_value(spec_intern_all(empty_model::<T>(), vs), x) <==> vs.contains(x),
        spec_intern_all(empty_model::<T>(), vs).entries.len() == distinct_count(vs),
        spec_intern_all(empty_model::<T>(), vs).next == distinct_count(vs),
    decreases vs.len(),
{
    if vs.len() == 0 {
    } else {
        let dl = vs.drop_last();
        let last = vs.last();
        lemma_intern_all_count::<T>(dl);
        let prev = spec_intern_all(empty_model::<T>(), dl);
        let cur = spec_intern_all(empty_model::<T>(), vs);
        assert(cur == spec_intern(prev, last).0);
        assert(has_value(prev, last) <==> dl.contains(last));
        lemma_intern_wf(prev, last);
        assert forall|x: T| has_value(cur, x) <==> vs.contains(x) by {
            assert(has_value(cur, x) <==> (has_value(prev, x) || x == last));
            if vs.contains(x) {
                let k = choose|k: int| 0 <= k < vs.len() && vs[k] == x;
                if k < vs.len() - 1 {
                    assert(dl[k] == x);
                    assert(dl.contains(x));
                } else {
                    assert(x == last);
                }
            }
            if dl.contains(x) {
                let k = choose|k: int| 0 <= k < dl.len() && dl[k] == x;
                assert(vs[k] == x);
                assert(vs.contains(x));
            }
            if x == last {
                assert(vs[vs.len() - 1] == x);
                assert(vs.contains(x));
            }
        }
    }
}

/// When the interned values are pairwise distinct, their distinct count is
/// their number: together with [`lemma_intern_all_count`], interning `n`
/// pairwise-distinct values yields a count of exactly `n`.
pub proof fn lemma_distinct_count_of_distinct<T>(vs: Seq<T>)
    requires
        all_distinct(vs),
    ensures
        distinct_count(vs) == vs.len(),
    decreases vs.len(),
{
    if vs.len() > 0 {
        let dl = vs.drop_last();
        assert(all_distinct(dl)) by {
            assert(forall|i: int| 0 <= i < dl.len() ==> dl[i] == vs[i]);
        }
        lemma_distinct_count_of_distinct(dl);
        assert(!dl.contains(vs.last())) by {
            if dl.contains(vs.last()) {
                let j = choose|j: int| 0 <= j < dl.len() && dl[j] == vs.last();
                assert(vs[j] == vs[vs.len() - 1]);
            }
        }
    }
}

/// Count monotonicity in its direct form: interning `n` pairwise-distinct
/// values into a fresh table — with any number of duplicate interns folded
/// into the stream by [`lemma_intern_all_count`] — leaves exactly `n`
/// entries.
pub proof fn lemma_count_of_pairwise_distinct<T>(vs: Seq<T>)
    requires
        all_distinct(vs),
        vs.len() <= usize::MAX,
    ensures
        spec_intern_all(empty_model::<T>(), vs).entries.len() == vs.len(),
{
    lemma_distinct_count_of_distinct(vs);
    lemma_intern_all_count::<T>(vs);
}

} // verus!
