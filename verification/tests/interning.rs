use unique::allocators::HashAllocator;
use unique::{Allocated, Allocator, Id};

#[derive(PartialEq, Eq, Hash, Debug)]
enum Expr {
    Const(i32),
    Add(Id<Expr>, Id<Expr>),
}

impl Allocated for Expr {
    type Alloc = HashAllocator<Expr>;
}

use self::Expr::{Add, Const};

fn render(e: &Expr, alloc: &HashAllocator<Expr>) -> String {
    match e {
        Const(n) => format!("{}", n),
        Add(x, y) => format!(
            "({} + {})",
            render(alloc.value_of(x), alloc),
            render(alloc.value_of(y), alloc)
        ),
    }
}

#[test]
fn example() {
    let mut alloc: HashAllocator<Expr> = HashAllocator::default();
    assert_eq!(alloc.allocations(), 0);
    let two_x = Id::new(Const(2), &mut alloc);
    let two_y = Id::new(Const(2), &mut alloc);
    let three = Id::new(Const(3), &mut alloc);
    assert_eq!(alloc.allocations(), 2);

    assert_eq!(two_x, two_y);
    assert_eq!(Id::id(&two_x), Id::id(&two_y));
    assert_ne!(two_x, three);

    let four = Id::new(Add(two_x, two_y), &mut alloc);
    let expected = Add(
        Id::new(Const(2), &mut alloc),
        Id::new(Const(2), &mut alloc),
    );
    assert_eq!(*alloc.value_of(&four), expected);
    assert_eq!(render(alloc.value_of(&four), &alloc), "(2 + 2)");
    assert_eq!(alloc.allocations(), 3);

    alloc.release(three);
    alloc.delete_unused();
    assert_eq!(alloc.allocations(), 2);
}

#[test]
fn canonical_identity() {
    let mut alloc: HashAllocator<u64> = HashAllocator::default();
    let a = alloc.allocate(7);
    let b = alloc.allocate(7);
    assert_eq!(Id::id(&a), Id::id(&b));
    assert_eq!(a, b);
}

#[test]
fn distinct_identity() {
    let mut alloc: HashAllocator<u64> = HashAllocator::default();
    let a = alloc.allocate(7);
    let b = alloc.allocate(8);
    assert_ne!(Id::id(&a), Id::id(&b));
    assert_ne!(a, b);
}

#[test]
fn count_ignores_duplicates() {
    let mut alloc: HashAllocator<u64> = HashAllocator::default();
    let mut handles = Vec::new();
    for v in [10u64, 20, 10, 30, 20, 10, 40, 40, 10] {
        handles.push(alloc.allocate(v));
    }
    // Four pairwise-distinct values were interned, however often repeated.
    assert_eq!(alloc.allocations(), 4);
}

#[test]
fn collect_removes_exactly_the_unreferenced() {
    let mut alloc: HashAllocator<u64> = HashAllocator::default();
    let a = alloc.allocate(1);
    let b = alloc.allocate(2);
    let c = alloc.allocate(3);
    assert_eq!(alloc.allocations(), 3);
    let old_b = Id::id(&b);
    alloc.release(b);
    alloc.release(c);
    alloc.delete_unused();
    // Two entries were fully unreferenced: the count drops by exactly two.
    assert_eq!(alloc.allocations(), 1);
    assert_eq!(*alloc.value_of(&a), 1);
    // Re-interning a swept value yields a fresh identity.
    let b2 = alloc.allocate(2);
    assert_ne!(Id::id(&b2), old_b);
}

#[test]
fn collect_keeps_live_entries() {
    let mut alloc: HashAllocator<u64> = HashAllocator::default();
    let a = alloc.allocate(5);
    let extra = alloc.clone_id(&a);
    alloc.release(extra);
    alloc.delete_unused();
    // One handle is still out: the entry must survive the sweep.
    assert_eq!(alloc.allocations(), 1);
    assert_eq!(*alloc.value_of(&a), 5);
    assert_eq!(Id::id(&alloc.allocate(5)), Id::id(&a));
}

#[test]
fn reuse_fast_path() {
    let mut alloc: HashAllocator<u64> = HashAllocator::default();
    let h = alloc.allocate(11);
    let before = alloc.allocations();
    let r = alloc.reuse(&h, 11);
    assert_eq!(Id::id(&r), Id::id(&h));
    assert_eq!(alloc.allocations(), before);
    // With a different value, reuse behaves exactly as allocate.
    let s = alloc.reuse(&h, 12);
    assert_ne!(Id::id(&s), Id::id(&h));
    assert_eq!(alloc.allocations(), before + 1);
    assert_eq!(*alloc.value_of(&s), 12);
}

#[test]
fn clone_id_shares_identity() {
    let mut alloc: HashAllocator<u64> = HashAllocator::default();
    let h = alloc.allocate(9);
    let c = alloc.clone_id(&h);
    assert_eq!(Id::id(&c), Id::id(&h));
    assert_eq!(c, h);
    assert_eq!(alloc.allocations(), 1);
}

#[test]
fn scenario_const_add_collect() {
    let mut alloc: HashAllocator<Expr> = HashAllocator::default();
    let two_a = Id::new(Const(2), &mut alloc);
    let two_b = Id::new(Const(2), &mut alloc);
    let _three = Id::new(Const(3), &mut alloc);
    assert_eq!(alloc.allocations(), 2);
    let four = Id::new(Add(two_a, two_b), &mut alloc);
    assert_eq!(alloc.allocations(), 3);
    alloc.release(four);
    alloc.delete_unused();
    assert_eq!(alloc.allocations(), 2);
}

#[test]
fn handles_order_by_identity() {
    let mut alloc: HashAllocator<u64> = HashAllocator::default();
    let first = alloc.allocate(100);
    let second = alloc.allocate(50);
    // Ordering follows the identity (insertion order), not the values.
    assert!(first < second);
    assert!(second > first);
    assert_eq!(
        first.partial_cmp(&alloc.clone_id(&first)),
        Some(std::cmp::Ordering::Equal)
    );
}
