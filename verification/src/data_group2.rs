//! Second version of the datagroup registry, whose entries keep the
//! identifier they were created with.
use crate::sorting::{sort_by_key, sorted_by_key, stable_sort_of, KeyedEntry};
use vstd::prelude::*;

verus! {

pub type DataGroupID = u32;

/// Gives the identifier of a datagroup instance.
pub trait DataGroupMeta {
    fn get_id(&self) -> DataGroupID;
}

/// Entry for the datagroup registry. `F` is the factory that creates a
/// default instance of the datagroup.
pub struct DataGroupRegistryEntry<F> {
    pub name: &'static str,
    pub name_crc: u32,
    pub factory_func: F,
    pub id: DataGroupID,
}

impl<F> KeyedEntry for DataGroupRegistryEntry<F> {
    open spec fn key(&self) -> u32 {
        self.id
    }

    fn entry_key(&self) -> (r: u32) {
        self.id
    }
}

/// Datagroup registry used to store and manage datagroups.
pub struct DataGroupRegistry<F> {
    entries: Vec<DataGroupRegistryEntry<F>>,
}

impl<F> DataGroupRegistry<F> {
    /// The registered entries, in their current order.
    pub closed spec fn view(&self) -> Seq<DataGroupRegistryEntry<F>> {
        self.entries@
    }

    /// Call this first thing before running game play code: sorts the entries
    /// by identifier.
    pub fn init(&mut self)
        ensures
            stable_sort_of(old(self)@, final(self)@),
            sorted_by_key(old(self)@) ==> final(self)@ == old(self)@,
    {
        sort_by_key(&mut self.entries);
    }

    /// Create a new empty registry.
    pub fn new() -> (r: Self)
        ensures
            r@ == Seq::<DataGroupRegistryEntry<F>>::empty(),
    {
        DataGroupRegistry { entries: Vec::new() }
    }

    /// Create a registry from a list of entries.
    pub fn from_entries(entries: Vec<DataGroupRegistryEntry<F>>) -> (r: Self)
        ensures
            r@ == entries@,
    {
        DataGroupRegistry { entries }
    }

    /// Add a new entry to the registry.
    pub fn register(&mut self, entry: DataGroupRegistryEntry<F>)
        ensures
            final(self)@ == old(self)@.push(entry),
    {
        self.entries.push(entry);
    }

    /// The entry at position `id`.
    pub fn get_entry_of(&self, id: DataGroupID) -> (r: &DataGroupRegistryEntry<F>)
        requires
            id < self@.len(),
        ensures
            *r == self@[id as int],
    {
        &self.entries[id as usize]
    }

    /// Create a datagroup with the factory of the entry at position `id`.
    pub fn create<R>(&self, id: DataGroupID) -> (r: R) where F: Fn() -> R
        requires
            id < self@.len(),
            call_requires(self@[id as int].factory_func, ()),
        ensures
            call_ensures(self@[id as int].factory_func, (), r),
    {
        let entry = self.get_entry_of(id);
        (entry.factory_func)()
    }
}

} // verus!
