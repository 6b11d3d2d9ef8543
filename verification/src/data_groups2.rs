//! Early version of the datagroup registry, whose entries carry no identifier.
use vstd::prelude::*;

verus! {

pub type DatagroupID = u32;

/// Entry for the datagroup registry. `F` is the factory that creates a
/// default instance of the datagroup.
pub struct DataGroupRegistryEntry<F> {
    pub name: &'static str,
    pub name_crc: u32,
    pub factory_func: F,
}

/// Datagroup registry used to store and manage datagroups.
pub struct DataGroupRegistry<F> {
    entries: Vec<DataGroupRegistryEntry<F>>,
}

impl<F> DataGroupRegistry<F> {
    /// The registered entries, in registration order.
    pub closed spec fn view(&self) -> Seq<DataGroupRegistryEntry<F>> {
        self.entries@
    }

    /// Create a new empty registry.
    pub fn new() -> (r: Self)
        ensures
            r@ == Seq::<DataGroupRegistryEntry<F>>::empty(),
    {
        DataGroupRegistry { entries: Vec::new() }
    }

    /// Create a registry from a list of entries.
    pub fn from_entries(entries: Vec<DataGroupRegistryEntry<F>>) -> (r: Self)
        ensures
            r@ == entries@,
    {
        DataGroupRegistry { entries }
    }

    /// Add a new entry to the registry.
    pub fn register(&mut self, entry: DataGroupRegistryEntry<F>)
        ensures
            final(self)@ == old(self)@.push(entry),
    {
        self.entries.push(entry);
    }
}

} // verus!
