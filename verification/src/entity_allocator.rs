//! Storage for entities, addressed by generational pointers.
//!
//! An `EntityPtr` names a slot of the allocator and the generation the slot had
//! when it was handed out. Freeing a slot drops its entity (if it was
//! initialized) and moves the slot to the next generation, so that every
//! pointer to the freed entity stops being live.
use crate::free_queue::{
    free_queue_contents, queue_is_empty, queue_new, queue_pop, queue_push,
};
use scc::Queue;
use vstd::prelude::*;

verus! {

/// A non-owning reference to an entity stored by an [`EntityAllocator`].
#[derive(Debug, Clone, Copy, PartialEq, Eq, Structural)]
pub struct EntityPtr {
    pub index: usize,
    pub generation: u32,
}

struct EntityEntry<E> {
    generation: u32,
    entity: Option<E>,
}

/// Manage entity allocation and storage.
pub struct EntityAllocator<E> {
    entries: Vec<EntityEntry<E>>,
    free: Queue<usize>,
}

/// Generation that a slot takes when the entity in it is freed; the
/// generation counter wraps around.
pub open spec fn next_generation(g: u32) -> u32 {
    if g == u32::MAX {
        0
    } else {
        (g + 1) as u32
    }
}

impl<E> EntityAllocator<E> {
    /// Number of slots, allocated or free.
    pub closed spec fn slot_count(&self) -> nat {
        self.entries@.len()
    }

    /// Current generation of slot `i`.
    pub closed spec fn slot_generation(&self, i: int) -> u32 {
        self.entries@[i].generation
    }

    /// Entity stored in slot `i`, `None` when the slot is not initialized.
    pub closed spec fn slot_entity(&self, i: int) -> Option<E> {
        self.entries@[i].entity
    }

    /// Free slots, in the order in which they will be reused.
    pub closed spec fn free_slots(&self) -> Seq<usize> {
        free_queue_contents(self.free)
    }

    /// `p` carries the current generation of an existing slot.
    pub open spec fn ptr_is_live(&self, p: EntityPtr) -> bool {
        &&& p.index < self.slot_count()
        &&& self.slot_generation(p.index as int) == p.generation
    }

    /// `p` points to a slot that is allocated and carries its current generation.
    pub open spec fn owns(&self, p: EntityPtr) -> bool {
        &&& self.ptr_is_live(p)
        &&& !self.free_slots().contains(p.index)
    }

    /// The allocated slots, by pointer: `Some` for an initialized entity, `None`
    /// for a slot that was allocated and not yet initialized.
    pub open spec fn view(&self) -> Map<EntityPtr, Option<E>> {
        Map::new(|p: EntityPtr| self.owns(p), |p: EntityPtr| self.slot_entity(p.index as int))
    }

    /// Internal consistency between the slots and the free queue.
    pub closed spec fn wf(&self) -> bool {
        let free = free_queue_contents(self.free);
        &&& free.no_duplicates()
        &&& forall|j: int|
            0 <= j < free.len() ==> #[trigger] free[j] < self.entries@.len()
                && self.entries@[free[j] as int].entity is None
    }

    /// Create an empty allocator.
    pub fn new() -> (a: Self)
        ensures
            a.wf(),
            a@ == Map::<EntityPtr, Option<E>>::empty(),
            a.slot_count() == 0,
            a.free_slots() == Seq::<usize>::empty(),
    {
        let a = EntityAllocator { entries: Vec::new(), free: queue_new() };
        assert(a@ =~= Map::<EntityPtr, Option<E>>::empty());
        a
    }

    /// Allocate a slot for an entity and return a pointer to it.
    ///
    /// The entity is uninitialized until `init` is called with the pointer. The
    /// oldest free slot is reused, with its current generation; when no slot is
    /// free a new slot is appended with generation 0.
    pub fn allocate(&mut self) -> (p: EntityPtr)
        requires
            old(self).wf(),
        ensures
            final(self).wf(),
            !old(self)@.contains_key(p),
            final(self)@ == old(self)@.insert(p, None),
            forall|i: int|
                0 <= i < old(self).slot_count() ==> final(self).slot_generation(i)
                    == old(self).slot_generation(i),
            old(self).free_slots().len() == 0 ==> {
                &&& p.index == old(self).slot_count()
                &&& p.generation == 0
                &&& final(self).slot_count() == old(self).slot_count() + 1
                &&& final(self).free_slots() == old(self).free_slots()
            },
            old(self).free_slots().len() > 0 ==> {
                &&& p.index == old(self).free_slots()[0]
                &&& p.generation == old(self).slot_generation(p.index as int)
                &&& final(self).slot_count() == old(self).slot_count()
                &&& final(self).free_slots() == old(self).free_slots().drop_first()
            },
    {
        proof {
            broadcast use vstd::seq_lib::group_seq_properties;
        }
        let ghost old_self = *self;
        if queue_is_empty(&self.free) {
            let index = self.entries.len();
            self.entries.push(EntityEntry { generation: 0, entity: None });
            let p = EntityPtr { index, generation: 0 };
            proof {
                assert(!old_self@.contains_key(p));
                assert(self@ =~= old_self@.insert(p, None));
            }
            return p;
        }
        let popped = queue_pop(&mut self.free);
        let index = match popped {
            Some(i) => i,
            None => 0,
        };
        let generation = self.entries[index].generation;
        let p = EntityPtr { index, generation };
        proof {
            let old_free = free_queue_contents(old_self.free);
            let free = free_queue_contents(self.free);
            assert(old_free[0] == index);
            assert(old_free.contains(index));
            assert(!free.contains(index)) by {
                if free.contains(index) {
                    let j = choose|j: int| 0 <= j < free.len() && free[j] == index;
                    assert(old_free[j + 1] == index);
                }
            }
            assert forall|j: int| 0 <= j < free.len() implies #[trigger] free[j] < self.entries@.len()
                && self.entries@[free[j] as int].entity is None by {
                assert(free[j] == old_free[j + 1]);
            }
            assert forall|q: EntityPtr| #[trigger] self.owns(q) <==> old_self.owns(q) || q == p by {
                if q.index != index {
                    assert(free.contains(q.index) <==> old_free.contains(q.index)) by {
                        if old_free.contains(q.index) {
                            let j = choose|j: int| 0 <= j < old_free.len() && old_free[j] == q.index;
                            assert(free[j - 1] == q.index);
                        }
                        if free.contains(q.index) {
                            let j = choose|j: int| 0 <= j < free.len() && free[j] == q.index;
                            assert(old_free[j + 1] == q.index);
                        }
                    }
                }
            }
            assert(self@ =~= old_self@.insert(p, None));
        }
        p
    }

    /// If the entity pointed to by `p` is still valid: its slot carries the
    /// generation of the pointer.
    pub fn is_live(&self, p: &EntityPtr) -> (r: bool)
        requires
            p.index < self.slot_count(),
        ensures
            r == self.ptr_is_live(*p),
    {
        self.entries[p.index].generation == p.generation
    }

    /// Whether the slot pointed to by `p` holds an initialized entity.
    pub fn is_initialized(&self, p: &EntityPtr) -> (r: bool)
        requires
            p.index < self.slot_count(),
        ensures
            r == (self.slot_entity(p.index as int) is Some),
    {
        self.entries[p.index].entity.is_some()
    }

    /// Initialize the entity pointed to by `p` with `entity`.
    pub fn init(&mut self, p: &EntityPtr, entity: E)
        requires
            old(self).wf(),
            old(self)@.contains_key(*p),
        ensures
            final(self).wf(),
            final(self)@ == old(self)@.insert(*p, Some(entity)),
            final(self).slot_count() == old(self).slot_count(),
            final(self).free_slots() == old(self).free_slots(),
            forall|i: int|
                0 <= i < old(self).slot_count() ==> final(self).slot_generation(i)
                    == old(self).slot_generation(i),
    {
        let ghost old_self = *self;
        let index = p.index;
        let generation = self.entries[index].generation;
        self.entries.set(index, EntityEntry { generation, entity: Some(entity) });
        proof {
            let free = free_queue_contents(self.free);
            assert forall|j: int| 0 <= j < free.len() implies #[trigger] free[j] < self.entries@.len()
                && self.entries@[free[j] as int].entity is None by {
                assert(free[j] != index);
            }
            assert(self@ =~= old_self@.insert(*p, Some(entity)));
        }
    }

    /// Whether `p` points to an initialized entity of this allocator.
    pub fn holds(&self, p: &EntityPtr) -> (r: bool)
        requires
            self.wf(),
        ensures
            r == (self@.contains_key(*p) && self@[*p] is Some),
    {
        if p.index < self.entries.len() && self.entries[p.index].generation == p.generation
            && self.entries[p.index].entity.is_some() {
            proof {
                let free = free_queue_contents(self.free);
                if free.contains(p.index) {
                    let j = choose|j: int| 0 <= j < free.len() && free[j] == p.index;
                }
            }
            true
        } else {
            false
        }
    }

    /// Number of slots, allocated or free.
    pub fn num_slots(&self) -> (r: usize)
        ensures
            r == self.slot_count(),
    {
        self.entries.len()
    }

    /// Take the entity pointed to by `p` out of its slot, which stays
    /// allocated and becomes uninitialized until `init` puts an entity back.
    pub fn take(&mut self, p: &EntityPtr) -> (e: E)
        requires
            old(self).wf(),
            old(self)@.contains_key(*p),
            old(self)@[*p] is Some,
        ensures
            final(self).wf(),
            Some(e) == old(self)@[*p],
            final(self)@ == old(self)@.insert(*p, None),
            final(self).slot_count() == old(self).slot_count(),
            final(self).free_slots() == old(self).free_slots(),
            forall|i: int|
                0 <= i < old(self).slot_count() ==> final(self).slot_generation(i)
                    == old(self).slot_generation(i),
    {
        let ghost old_self = *self;
        let index = p.index;
        let generation = self.entries[index].generation;
        let mut entry = EntityEntry { generation, entity: None };
        std::mem::swap(&mut entry, &mut self.entries[index]);
        proof {
            let free = free_queue_contents(self.free);
            assert forall|j: int| 0 <= j < free.len() implies #[trigger] free[j] < self.entries@.len()
                && self.entries@[free[j] as int].entity is None by {
                if free[j] == index {
                    assert(old_self.owns(*p));
                }
            }
            assert(self@ =~= old_self@.insert(*p, None));
        }
        match entry.entity {
            Some(e) => e,
            None => {
                proof {
                    assert(false);
                }
                unreached()
            },
        }
    }

    /// Free the entity pointed to by `p`: it is dropped if it was initialized,
    /// the slot moves to the next generation and joins the free queue.
    pub fn free(&mut self, p: &EntityPtr)
        requires
            old(self).wf(),
            old(self)@.contains_key(*p),
        ensures
            final(self).wf(),
            final(self)@ == old(self)@.remove(*p),
            final(self).slot_count() == old(self).slot_count(),
            final(self).slot_generation(p.index as int) == next_generation(p.generation),
            forall|i: int|
                0 <= i < old(self).slot_count() && i != p.index ==> final(self).slot_generation(i)
                    == old(self).slot_generation(i),
            final(self).slot_entity(p.index as int) is None,
            final(self).free_slots() == old(self).free_slots().push(p.index),
    {
        proof {
            broadcast use vstd::seq_lib::group_seq_properties;
        }
        let ghost old_self = *self;
        let index = p.index;
        let generation = self.entries[index].generation;
        let next = generation.wrapping_add(1);
        self.entries.set(index, EntityEntry { generation: next, entity: None });
        queue_push(&mut self.free, index);
        proof {
            let old_free = free_queue_contents(old_self.free);
            let free = free_queue_contents(self.free);
            assert forall|j: int| 0 <= j < free.len() implies #[trigger] free[j] < self.entries@.len()
                && self.entries@[free[j] as int].entity is None by {
                if j < old_free.len() {
                    assert(free[j] == old_free[j]);
                }
            }
            assert forall|q: EntityPtr| #[trigger] self.owns(q) <==> old_self.owns(q) && q != *p by {
                if q.index != index {
                    assert(free.contains(q.index) <==> old_free.contains(q.index)) by {
                        if old_free.contains(q.index) {
                            let j = choose|j: int| 0 <= j < old_free.len() && old_free[j] == q.index;
                            assert(free[j] == q.index);
                        }
                        if free.contains(q.index) {
                            let j = choose|j: int| 0 <= j < free.len() && free[j] == q.index;
                            assert(old_free[j] == q.index);
                        }
                    }
                } else {
                    assert(free[free.len() - 1] == index);
                }
            }
            assert(self@ =~= old_self@.remove(*p));
        }
    }

    /// The entity pointed to by `p`.
    pub fn get(&self, p: &EntityPtr) -> (r: &E)
        requires
            self@.contains_key(*p),
            self@[*p] is Some,
        ensures
            Some(*r) == self@[*p],
    {
        match &self.entries[p.index].entity {
            Some(e) => e,
            None => unreached(),
        }
    }
}

} // verus!
