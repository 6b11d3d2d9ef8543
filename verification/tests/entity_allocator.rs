use proto_ecs::entity_allocator::{EntityAllocator, EntityPtr};

#[test]
fn allocated_pointer_is_live_and_uninitialized() {
    let mut alloc: EntityAllocator<String> = EntityAllocator::new();
    let p = alloc.allocate();
    assert!(alloc.is_live(&p));
    assert!(!alloc.is_initialized(&p));
    alloc.init(&p, "hello".to_string());
    assert!(alloc.is_initialized(&p));
    assert_eq!(alloc.get(&p), "hello");
}

#[test]
fn freeing_kills_pointer_and_reuses_slot() {
    let mut alloc: EntityAllocator<u32> = EntityAllocator::new();
    let p = alloc.allocate();
    alloc.free(&p);
    assert!(!alloc.is_live(&p));
    let q = alloc.allocate();
    assert_eq!(q, EntityPtr { index: p.index, generation: 1 });
    alloc.init(&q, 420);
    assert!(alloc.is_initialized(&q));
    alloc.free(&q);
    assert!(!alloc.is_initialized(&q));
    assert!(!alloc.is_live(&q));
}
