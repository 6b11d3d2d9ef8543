//! Generational handles and the allocator that hands them out.
//!
//! A handle names a slot of the allocator together with the generation the
//! slot had when the handle was created. Freeing a slot bumps its generation,
//! so every handle that named the freed value becomes stale and stays stale.
use crate::free_queue::{
    free_queue_contents, queue_is_empty, queue_new, queue_pop, queue_push,
};
use scc::Queue;
use vstd::prelude::*;

verus! {

/// Handle for resources like buffers, shaders, models and materials.
#[derive(Debug, Clone, Copy, PartialEq, Eq, Hash, Structural)]
pub struct Handle {
    pub index: u32,
    pub generation: u32,
}

impl Handle {
    pub fn new(index: u32, generation: u32) -> (h: Self)
        ensures
            h.index == index,
            h.generation == generation,
    {
        Handle { index, generation }
    }

    pub fn index(&self) -> (r: u32)
        ensures
            r == self.index,
    {
        self.index
    }

    pub fn generation(&self) -> (r: u32)
        ensures
            r == self.generation,
    {
        self.generation
    }

    /// The slot of the allocator that this handle names.
    pub fn array_index(&self) -> (r: usize)
        ensures
            r == self.index,
    {
        self.index as usize
    }
}

struct AllocatorEntry<V> {
    value: Option<V>,
    generation: u32,
}

/// Allocator of values addressed by generational handles.
///
/// Slots that were freed are kept in a first-in-first-out queue and reused
/// before new slots are appended.
pub struct GenerationalIndexAllocator<V> {
    free: Queue<usize>,
    entries: Vec<AllocatorEntry<V>>,
}

/// The allocator used for most resources.
pub type Allocator<V> = GenerationalIndexAllocator<V>;

impl<V> GenerationalIndexAllocator<V> {
    /// Number of slots, live or free.
    pub closed spec fn slot_count(&self) -> nat {
        self.entries@.len()
    }

    /// Current generation of slot `i`.
    pub closed spec fn slot_generation(&self, i: int) -> u32 {
        self.entries@[i].generation
    }

    /// Value held by slot `i`, `None` when the slot is free.
    pub closed spec fn slot_value(&self, i: int) -> Option<V> {
        self.entries@[i].value
    }

    /// Free slots, in the order in which they will be reused.
    pub closed spec fn free_slots(&self) -> Seq<usize> {
        free_queue_contents(self.free)
    }

    /// `k` names the value that its slot currently holds.
    pub open spec fn holds(&self, k: Handle) -> bool {
        &&& k.index < self.slot_count()
        &&& self.slot_generation(k.index as int) == k.generation
        &&& self.slot_value(k.index as int) is Some
    }

    /// `k` names a value that was freed: its slot has moved to a later generation.
    pub open spec fn is_stale(&self, k: Handle) -> bool {
        &&& k.index < self.slot_count()
        &&& k.generation < self.slot_generation(k.index as int)
    }

    /// The live values, by handle.
    pub open spec fn view(&self) -> Map<Handle, V> {
        Map::new(
            |k: Handle| self.holds(k),
            |k: Handle| self.slot_value(k.index as int)->Some_0,
        )
    }

    /// Internal consistency between the slots and the free queue.
    pub closed spec fn wf(&self) -> bool {
        let free = free_queue_contents(self.free);
        &&& self.entries@.len() <= u32::MAX
        &&& free.no_duplicates()
        &&& forall|j: int|
            0 <= j < free.len() ==> #[trigger] free[j] < self.entries@.len()
                && self.entries@[free[j] as int].value is None
        &&& forall|i: int|
            0 <= i < self.entries@.len() && #[trigger] self.entries@[i].value is None
                ==> free.contains(i as usize)
    }

    /// Slot generations never decrease and slots are never removed.
    pub open spec fn generations_grow(old_a: &Self, new_a: &Self) -> bool {
        &&& old_a.slot_count() <= new_a.slot_count()
        &&& forall|i: int|
            0 <= i < old_a.slot_count() ==> old_a.slot_generation(i) <= #[trigger] new_a.slot_generation(i)
    }

    /// Create an empty allocator.
    pub fn new() -> (a: Self)
        ensures
            a.wf(),
            a@ == Map::<Handle, V>::empty(),
            a.slot_count() == 0,
            a.free_slots() == Seq::<usize>::empty(),
    {
        let a = GenerationalIndexAllocator { free: queue_new(), entries: Vec::new() };
        assert(a@ =~= Map::<Handle, V>::empty());
        a
    }

    /// Store `value` and return the handle that names it.
    ///
    /// The oldest free slot is reused, with its current generation; when no slot
    /// is free a new slot is appended with generation 0.
    pub fn allocate(&mut self, value: V) -> (k: Handle)
        requires
            old(self).wf(),
            old(self).free_slots().len() > 0 || old(self).slot_count() < u32::MAX,
        ensures
            final(self).wf(),
            !old(self)@.contains_key(k),
            !old(self).is_stale(k),
            final(self)@ == old(self)@.insert(k, value),
            Self::generations_grow(old(self), final(self)),
            forall|i: int|
                0 <= i < old(self).slot_count() ==> final(self).slot_generation(i)
                    == old(self).slot_generation(i),
            old(self).free_slots().len() == 0 ==> {
                &&& k.index == old(self).slot_count()
                &&& k.generation == 0
                &&& final(self).slot_count() == old(self).slot_count() + 1
                &&& final(self).free_slots() == old(self).free_slots()
            },
            old(self).free_slots().len() > 0 ==> {
                &&& k.index == old(self).free_slots()[0]
                &&& k.generation == old(self).slot_generation(k.index as int)
                &&& final(self).slot_count() == old(self).slot_count()
                &&& final(self).free_slots() == old(self).free_slots().drop_first()
            },
    {
        proof {
            broadcast use vstd::seq_lib::group_seq_properties;
        }
        let ghost old_self = *self;
        if queue_is_empty(&self.free) {
            let next_index = self.entries.len();
            self.entries.push(AllocatorEntry { value: Some(value), generation: 0 });
            let k = Handle { index: next_index as u32, generation: 0 };
            proof {
                let free = free_queue_contents(self.free);
                assert forall|i: int|
                    0 <= i < self.entries@.len() && #[trigger] self.entries@[i].value is None
                        implies free.contains(i as usize) by {
                    assert(i < old_self.entries@.len());
                    assert(old_self.entries@[i] == self.entries@[i]);
                }
                assert(self@ =~= old_self@.insert(k, value));
            }
            return k;
        }
        let popped = queue_pop(&mut self.free);
        let next_index = match popped {
            Some(i) => i,
            None => 0,
        };
        let next_generation = self.entries[next_index].generation;
        self.entries.set(next_index, AllocatorEntry { value: Some(value), generation: next_generation });
        let k = Handle { index: next_index as u32, generation: next_generation };
        proof {
            let old_free = free_queue_contents(old_self.free);
            let free = free_queue_contents(self.free);
            assert(old_free[0] == next_index);
            assert forall|j: int| 0 <= j < free.len() implies #[trigger] free[j] < self.entries@.len()
                && self.entries@[free[j] as int].value is None by {
                assert(free[j] == old_free[j + 1]);
                assert(old_free[j + 1] != old_free[0]);
            }
            assert forall|i: int|
                0 <= i < self.entries@.len() && #[trigger] self.entries@[i].value is None
                    implies free.contains(i as usize) by {
                assert(i != next_index);
                assert(old_self.entries@[i].value is None);
                assert(old_free.contains(i as usize));
                let j = choose|j: int| 0 <= j < old_free.len() && old_free[j] == i as usize;
                assert(j != 0);
                assert(free[j - 1] == i as usize);
            }
            assert(self@ =~= old_self@.insert(k, value));
        }
        k
    }

    /// Whether `key` carries the current generation of its slot.
    pub fn is_live(&self, key: Handle) -> (r: bool)
        requires
            key.index < self.slot_count(),
        ensures
            r == (self.slot_generation(key.index as int) == key.generation),
    {
        let index = key.array_index();
        self.entries[index].generation == key.generation
    }

    /// Drop the value named by `key`; its slot moves to the next generation and
    /// joins the free queue.
    pub fn free(&mut self, key: Handle)
        requires
            old(self).wf(),
            old(self)@.contains_key(key),
            key.generation < u32::MAX,
        ensures
            final(self).wf(),
            final(self)@ == old(self)@.remove(key),
            final(self).is_stale(key),
            Self::generations_grow(old(self), final(self)),
            final(self).slot_count() == old(self).slot_count(),
            final(self).slot_generation(key.index as int) == key.generation + 1,
            forall|i: int|
                0 <= i < old(self).slot_count() && i != key.index ==> final(self).slot_generation(i)
                    == old(self).slot_generation(i),
            final(self).free_slots() == old(self).free_slots().push(key.index as usize),
    {
        proof {
            broadcast use vstd::seq_lib::group_seq_properties;
        }
        let ghost old_self = *self;
        let index = key.array_index();
        let generation = self.entries[index].generation;
        self.entries.set(index, AllocatorEntry { value: None, generation: generation + 1 });
        queue_push(&mut self.free, index);
        proof {
            let old_free = free_queue_contents(old_self.free);
            let free = free_queue_contents(self.free);
            assert(!old_free.contains(index)) by {
                if old_free.contains(index) {
                    let j = choose|j: int| 0 <= j < old_free.len() && old_free[j] == index;
                    assert(old_self.entries@[old_free[j] as int].value is None);
                }
            }
            assert forall|j: int| 0 <= j < free.len() implies #[trigger] free[j] < self.entries@.len()
                && self.entries@[free[j] as int].value is None by {
                if j < old_free.len() {
                    assert(free[j] == old_free[j]);
                }
            }
            assert forall|i: int|
                0 <= i < self.entries@.len() && #[trigger] self.entries@[i].value is None
                    implies free.contains(i as usize) by {
                if i == index {
                    assert(free[free.len() - 1] == index);
                } else {
                    assert(old_self.entries@[i].value is None);
                    let j = choose|j: int| 0 <= j < old_free.len() && old_free[j] == i as usize;
                    assert(free[j] == i as usize);
                }
            }
            assert(self@ =~= old_self@.remove(key));
        }
    }

    /// The value named by `key`.
    pub fn get(&self, key: Handle) -> (r: &V)
        requires
            self@.contains_key(key),
        ensures
            *r == self@[key],
    {
        let index = key.array_index();
        let entry = &self.entries[index];
        match &entry.value {
            Some(v) => v,
            None => {
                proof {
                    assert(self.holds(key));
                }
                unreached()
            },
        }
    }
}

} // verus!
