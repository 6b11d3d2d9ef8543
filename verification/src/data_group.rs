//! The datagroup registry: the entries that describe every registered
//! datagroup, addressed by their identifier.
use crate::common::InitDesc;
use crate::sorting::{sort_by_key, sorted_by_key, stable_sort_of, KeyedEntry};
use vstd::prelude::*;

verus! {

pub type DataGroupID = u32;

/// Gives the identifier of a datagroup instance.
/// Implemented for every registered datagroup.
pub trait DataGroupMeta {
    /// The identifier of the datagroup's type in the registry.
    spec fn spec_id(&self) -> DataGroupID;

    fn get_id(&self) -> (r: DataGroupID)
        ensures
            r == self.spec_id(),
    ;
}

/// The part of a datagroup that users implement: its initialization from the
/// optional argument given in the spawn description. `A` is the argument type.
pub trait DataGroup<A>: DataGroupMeta + Sized {
    /// The datagroup that initializing `self` with `init_data` gives.
    spec fn spec_init(&self, init_data: Option<A>) -> Self;

    fn __init__(&mut self, init_data: Option<A>)
        ensures
            *final(self) == old(self).spec_init(init_data),
            final(self).spec_id() == old(self).spec_id(),
    ;
}

/// Compile time metadata about a datagroup type: its identifier in the registry.
pub trait DataGroupMetadataLocator {
    spec fn spec_get_id() -> DataGroupID;

    fn get_id() -> (r: DataGroupID)
        ensures
            r == Self::spec_get_id(),
    ;
}

/// Entry for the datagroup registry: the data describing a specific datagroup.
/// `F` is the factory that creates a default instance of the datagroup.
pub struct DataGroupRegistryEntry<F> {
    pub name: &'static str,
    pub name_crc: u32,
    pub factory_func: F,
    pub id: DataGroupID,
    pub init_desc: InitDesc,
}

impl<F> KeyedEntry for DataGroupRegistryEntry<F> {
    open spec fn key(&self) -> u32 {
        self.id
    }

    fn entry_key(&self) -> (r: u32) {
        self.id
    }
}

/// Datagroup registry used to store and manage datagroups.
pub struct DataGroupRegistry<F> {
    entries: Vec<DataGroupRegistryEntry<F>>,
    is_initialized: bool,
}

/// Every entry sits at the position given by its identifier.
pub open spec fn ids_match_positions<F>(s: Seq<DataGroupRegistryEntry<F>>) -> bool {
    forall|i: int| 0 <= i < s.len() ==> #[trigger] s[i].id == i
}

impl<F> DataGroupRegistry<F> {
    /// The registered entries, in their current order.
    pub closed spec fn view(&self) -> Seq<DataGroupRegistryEntry<F>> {
        self.entries@
    }

    pub closed spec fn spec_is_initialized(&self) -> bool {
        self.is_initialized
    }

    /// Call this first thing before running game play code: sorts the entries
    /// by identifier and marks the registry as initialized.
    pub fn init(&mut self)
        requires
            !old(self).spec_is_initialized(),
        ensures
            final(self).spec_is_initialized(),
            stable_sort_of(old(self)@, final(self)@),
            sorted_by_key(old(self)@) ==> final(self)@ == old(self)@,
    {
        sort_by_key(&mut self.entries);
        self.is_initialized = true;
    }

    /// Create a new empty registry.
    pub fn new() -> (r: Self)
        ensures
            r@ == Seq::<DataGroupRegistryEntry<F>>::empty(),
            !r.spec_is_initialized(),
    {
        DataGroupRegistry { entries: Vec::new(), is_initialized: false }
    }

    /// Create a registry from a list of entries.
    pub fn from_entries(entries: Vec<DataGroupRegistryEntry<F>>) -> (r: Self)
        ensures
            r@ == entries@,
            !r.spec_is_initialized(),
    {
        DataGroupRegistry { entries, is_initialized: false }
    }

    /// If the data group registry is initialized.
    pub fn is_initialized(&self) -> (r: bool)
        ensures
            r == self.spec_is_initialized(),
    {
        self.is_initialized
    }

    /// Number of registered entries.
    pub fn len(&self) -> (r: usize)
        ensures
            r == self@.len(),
    {
        self.entries.len()
    }

    /// The registered entries, in their current order.
    pub fn entries(&self) -> (r: &[DataGroupRegistryEntry<F>])
        ensures
            r@ == self@,
    {
        self.entries.as_slice()
    }

    /// Add a new entry to the registry. Its identifier becomes its position,
    /// which is returned.
    pub fn register(&mut self, entry: DataGroupRegistryEntry<F>) -> (new_id: DataGroupID)
        requires
            old(self)@.len() < u32::MAX,
        ensures
            new_id == old(self)@.len(),
            final(self)@ == old(self)@.push(
                DataGroupRegistryEntry { id: new_id, ..entry },
            ),
            final(self).spec_is_initialized() == old(self).spec_is_initialized(),
    {
        let mut entry = entry;
        let new_id = self.entries.len() as u32;
        entry.id = new_id;
        self.entries.push(entry);
        new_id
    }

    /// The entry at position `id`.
    pub fn get_entry_by_id(&self, id: DataGroupID) -> (r: &DataGroupRegistryEntry<F>)
        requires
            id < self@.len(),
        ensures
            *r == self@[id as int],
    {
        &self.entries[id as usize]
    }

    /// The entry of the datagroup type `D`.
    pub fn get_entry<D: DataGroupMetadataLocator>(&self) -> (r: &DataGroupRegistryEntry<F>)
        requires
            D::spec_get_id() < self@.len(),
        ensures
            *r == self@[D::spec_get_id() as int],
    {
        self.get_entry_by_id(D::get_id())
    }

    /// Create a datagroup with the factory of the entry at position `id`.
    pub fn create_by_id<R>(&self, id: DataGroupID) -> (r: R) where F: Fn() -> R
        requires
            id < self@.len(),
            call_requires(self@[id as int].factory_func, ()),
        ensures
            call_ensures(self@[id as int].factory_func, (), r),
    {
        let entry = self.get_entry_by_id(id);
        (entry.factory_func)()
    }

    /// Create a datagroup of type `D` with its registered factory.
    pub fn create<D: DataGroupMetadataLocator, R>(&self) -> (r: R) where F: Fn() -> R
        requires
            D::spec_get_id() < self@.len(),
            call_requires(self@[D::spec_get_id() as int].factory_func, ()),
        ensures
            call_ensures(self@[D::spec_get_id() as int].factory_func, (), r),
    {
        self.create_by_id(D::get_id())
    }
}

} // verus!

verus! {

/// How a datagroup of an entity to be spawned gets initialized. `A` is the
/// type of the initialization argument.
#[derive(Debug)]
pub enum DataGroupInitType<A> {
    /// A datagroup that needs an argument which was not given yet; the message
    /// says who requested it.
    Uninitialized(&'static str),
    NoInit,
    NoArg,
    Arg(A),
    OptionalArg(Option<A>),
}

/// Datagroup types that declare how they are initialized.
pub trait DataGroupInitDescTrait {
    spec fn spec_init_desc() -> InitDesc;

    fn init_desc() -> (r: InitDesc)
        ensures
            r == Self::spec_init_desc(),
    ;
}

} // verus!
