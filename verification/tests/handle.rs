use proto_ecs::handle::{Allocator, GenerationalIndexAllocator, Handle};

#[test]
fn allocate_and_get() {
    let mut alloc: Allocator<String> = GenerationalIndexAllocator::new();
    let a = alloc.allocate("first".to_string());
    let b = alloc.allocate("second".to_string());
    assert_eq!(a, Handle::new(0, 0));
    assert_eq!(b, Handle::new(1, 0));
    assert_eq!(alloc.get(a), "first");
    assert_eq!(alloc.get(b), "second");
    assert!(alloc.is_live(a));
}

#[test]
fn freed_slots_are_reused_with_next_generation() {
    let mut alloc: GenerationalIndexAllocator<u64> = GenerationalIndexAllocator::new();
    let a = alloc.allocate(10);
    let b = alloc.allocate(20);
    alloc.free(a);
    assert!(!alloc.is_live(a));
    assert!(alloc.is_live(b));
    let c = alloc.allocate(30);
    assert_eq!(c.index(), a.index());
    assert_eq!(c.generation(), 1);
    assert_eq!(*alloc.get(c), 30);
    assert!(!alloc.is_live(a));
}

#[test]
fn free_queue_is_first_in_first_out() {
    let mut alloc: GenerationalIndexAllocator<u8> = GenerationalIndexAllocator::new();
    let a = alloc.allocate(1);
    let b = alloc.allocate(2);
    let c = alloc.allocate(3);
    alloc.free(c);
    alloc.free(a);
    let d = alloc.allocate(4);
    let e = alloc.allocate(5);
    assert_eq!(d.index(), c.index());
    assert_eq!(e.index(), a.index());
    let f = alloc.allocate(6);
    assert_eq!(f, Handle::new(3, 0));
    assert_eq!(*alloc.get(b), 2);
}

#[test]
fn handle_accessors() {
    let h = Handle::new(7, 3);
    assert_eq!(h.index(), 7);
    assert_eq!(h.generation(), 3);
    assert_eq!(h.array_index(), 7usize);
}
