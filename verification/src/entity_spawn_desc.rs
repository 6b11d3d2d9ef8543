//! Description of an entity to be spawned: its name, the datagroups it is
//! created with and the local and global systems it uses.
use crate::common::InitDesc;
use crate::data_group::{DataGroupID, DataGroupInitDescTrait, DataGroupInitType, DataGroupRegistry};
use crate::ids::IDLocator;
use crate::local_systems::{Dependency, LocalSystemRegistry, SystemClassID};
use std::collections::{HashMap, HashSet};
use vstd::std_specs::iter::IteratorSpec;
use vstd::prelude::*;

verus! {

broadcast use vstd::std_specs::hash::group_hash_axioms;

pub type GlobalSystemID = u32;

/// Max number of datagroups that can be in an entity.
pub const MAX_DATAGROUP_LEN: u16 = 0xFFFFu16;

/// Why the init parameter of a datagroup does not match what it expects.
#[derive(Debug, Clone, Copy)]
pub enum InitParamsError {
    /// The parameter was never given; the message says who requested it.
    Uninitialized(&'static str),
    /// The datagroup expects another kind of parameter.
    Mismatch { expected: InitDesc },
}

/// Why a spawn description cannot be spawned.
#[derive(Debug, Clone, Copy)]
pub enum SpawnDescriptionError {
    /// More datagroups than the indexing type can support.
    TooManyDataGroups,
    /// A datagroup identifier that the registry does not know.
    UnknownDataGroup(DataGroupID),
    /// The init parameter of a datagroup does not match what it expects.
    InvalidInitParams { id: DataGroupID, error: InitParamsError },
    /// A local system identifier that the registry does not know.
    UnknownLocalSystem(SystemClassID),
    /// A local system requires a datagroup that the entity does not have.
    MissingDependency { system: SystemClassID, datagroup: DataGroupID },
    /// A global system identifier that is not known.
    UnknownGlobalSystem(GlobalSystemID),
    /// A global system requires a datagroup that the entity does not have.
    MissingGlobalSystemDependency { global_system: GlobalSystemID, datagroup: DataGroupID },
}

/// The check of an init parameter against the datagroup's init description.
pub open spec fn init_params_check<A>(p: DataGroupInitType<A>, desc: InitDesc) -> Result<(), InitParamsError> {
    match p {
        DataGroupInitType::Uninitialized(msg) => Err(InitParamsError::Uninitialized(msg)),
        _ => if match desc {
            InitDesc::NoInit => p is NoInit,
            InitDesc::NoArg => p is NoArg,
            InitDesc::Arg => p is Arg,
            InitDesc::OptionalArg => p is OptionalArg,
        } {
            Ok(())
        } else {
            Err(InitParamsError::Mismatch { expected: desc })
        },
    }
}

/// The init parameter used for a datagroup requested by a local system when
/// the spawn description does not have it yet.
pub open spec fn default_init<A>(desc: InitDesc, msg: &'static str) -> DataGroupInitType<A> {
    match desc {
        InitDesc::NoInit => DataGroupInitType::NoInit,
        InitDesc::NoArg => DataGroupInitType::NoArg,
        InitDesc::Arg => DataGroupInitType::Uninitialized(msg),
        InitDesc::OptionalArg => DataGroupInitType::OptionalArg(None),
    }
}

/// An init parameter passes the check exactly when it is of the kind that
/// the datagroup's description asks for. One that was never given is always
/// refused, with the message of whoever requested the datagroup; a datagroup
/// that a local system added with its default parameter passes exactly when
/// its description does not ask for an argument.
pub proof fn law_init_params_match_their_description<A>(p: DataGroupInitType<A>, desc: InitDesc, msg: &'static str)
    ensures
        p matches DataGroupInitType::Uninitialized(m) ==> init_params_check(p, desc)
            == Err::<(), InitParamsError>(InitParamsError::Uninitialized(m)),
        init_params_check(p, desc) is Ok <==> {
            ||| desc == InitDesc::NoInit && p is NoInit
            ||| desc == InitDesc::NoArg && p is NoArg
            ||| desc == InitDesc::Arg && p is Arg
            ||| desc == InitDesc::OptionalArg && p is OptionalArg
        },
        !(p is Uninitialized) && init_params_check(p, desc) is Err ==> init_params_check(p, desc)
            == Err::<(), InitParamsError>(InitParamsError::Mismatch { expected: desc }),
        init_params_check(default_init::<A>(desc, msg), desc) is Ok <==> desc != InitDesc::Arg,
        desc == InitDesc::Arg ==> init_params_check(default_init::<A>(desc, msg), desc)
            == Err::<(), InitParamsError>(InitParamsError::Uninitialized(msg)),
{
}

/// Checks if the init params of a datagroup match what it expects them to be.
pub fn check_init_params<A>(init_param: &DataGroupInitType<A>, init_desc: InitDesc) -> (r: Result<(), InitParamsError>)
    ensures
        r == init_params_check(*init_param, init_desc),
{
    if let DataGroupInitType::Uninitialized(msg) = init_param {
        return Err(InitParamsError::Uninitialized(msg));
    }
    let ok = match init_desc {
        InitDesc::NoInit => matches!(init_param, DataGroupInitType::NoInit),
        InitDesc::NoArg => matches!(init_param, DataGroupInitType::NoArg),
        InitDesc::Arg => matches!(init_param, DataGroupInitType::Arg(_)),
        InitDesc::OptionalArg => matches!(init_param, DataGroupInitType::OptionalArg(_)),
    };
    if ok {
        Ok(())
    } else {
        Err(InitParamsError::Mismatch { expected: init_desc })
    }
}

/// Description of an entity to be spawned.
#[derive(Debug)]
pub struct EntitySpawnDescription<A> {
    name: String,
    debug_info: String,
    data_groups: HashMap<DataGroupID, DataGroupInitType<A>>,
    local_systems: HashSet<SystemClassID>,
    global_systems: HashSet<GlobalSystemID>,
}

impl<A> EntitySpawnDescription<A> {
    pub closed spec fn spec_name(&self) -> Seq<char> {
        self.name@
    }

    pub closed spec fn spec_debug_info(&self) -> Seq<char> {
        self.debug_info@
    }

    /// Datagroups to be created, with their init parameters.
    pub closed spec fn spec_datagroups(&self) -> Map<DataGroupID, DataGroupInitType<A>> {
        self.data_groups@
    }

    pub closed spec fn spec_local_systems(&self) -> Set<SystemClassID> {
        self.local_systems@
    }

    pub closed spec fn spec_global_systems(&self) -> Set<GlobalSystemID> {
        self.global_systems@
    }

    /// An empty description.
    pub fn new() -> (d: Self)
        ensures
            d.spec_name() == Seq::<char>::empty(),
            d.spec_debug_info() == Seq::<char>::empty(),
            d.spec_datagroups() == Map::<DataGroupID, DataGroupInitType<A>>::empty(),
            d.spec_local_systems() == Set::<SystemClassID>::empty(),
            d.spec_global_systems() == Set::<GlobalSystemID>::empty(),
    {
        EntitySpawnDescription {
            name: String::new(),
            debug_info: String::new(),
            data_groups: HashMap::new(),
            local_systems: HashSet::new(),
            global_systems: HashSet::new(),
        }
    }

    /// Set the name for this entity.
    pub fn set_name(&mut self, new_name: String)
        ensures
            final(self).spec_name() == new_name@,
            final(self).spec_debug_info() == old(self).spec_debug_info(),
            final(self).spec_datagroups() == old(self).spec_datagroups(),
            final(self).spec_local_systems() == old(self).spec_local_systems(),
            final(self).spec_global_systems() == old(self).spec_global_systems(),
    {
        self.name = new_name;
    }

    /// Get the name for this entity.
    pub fn get_name(&self) -> (r: &str)
        ensures
            r@ == self.spec_name(),
    {
        self.name.as_str()
    }

    /// Set the debug info (e. g. which system created it) for this entity.
    pub fn set_debug_info(&mut self, new_debug_info: String)
        ensures
            final(self).spec_debug_info() == new_debug_info@,
            final(self).spec_name() == old(self).spec_name(),
            final(self).spec_datagroups() == old(self).spec_datagroups(),
            final(self).spec_local_systems() == old(self).spec_local_systems(),
            final(self).spec_global_systems() == old(self).spec_global_systems(),
    {
        self.debug_info = new_debug_info;
    }

    /// Get the debug info for this entity.
    pub fn get_debug_info(&self) -> (r: &str)
        ensures
            r@ == self.spec_debug_info(),
    {
        self.debug_info.as_str()
    }

    /// Add a datagroup to the entity to be spawned, replacing and returning its
    /// previous init parameters if it was already there.
    pub fn add_datagroup_by_id(&mut self, id: DataGroupID, init_args: DataGroupInitType<A>) -> (r:
        Option<DataGroupInitType<A>>)
        ensures
            final(self).spec_datagroups() == old(self).spec_datagroups().insert(id, init_args),
            match r {
                Some(v) => old(self).spec_datagroups().contains_key(id) && v == old(
                    self,
                ).spec_datagroups()[id],
                None => !old(self).spec_datagroups().contains_key(id),
            },
            final(self).spec_name() == old(self).spec_name(),
            final(self).spec_debug_info() == old(self).spec_debug_info(),
            final(self).spec_local_systems() == old(self).spec_local_systems(),
            final(self).spec_global_systems() == old(self).spec_global_systems(),
    {
        self.data_groups.insert(id, init_args)
    }

    /// Add the datagroup `D` to the entity to be spawned.
    pub fn add_datagroup<D: IDLocator>(&mut self, init_args: DataGroupInitType<A>) -> (r: Option<
        DataGroupInitType<A>,
    >)
        ensures
            final(self).spec_datagroups() == old(self).spec_datagroups().insert(
                D::spec_get_id(),
                init_args,
            ),
            match r {
                Some(v) => old(self).spec_datagroups().contains_key(D::spec_get_id()) && v == old(
                    self,
                ).spec_datagroups()[D::spec_get_id()],
                None => !old(self).spec_datagroups().contains_key(D::spec_get_id()),
            },
            final(self).spec_name() == old(self).spec_name(),
            final(self).spec_debug_info() == old(self).spec_debug_info(),
            final(self).spec_local_systems() == old(self).spec_local_systems(),
            final(self).spec_global_systems() == old(self).spec_global_systems(),
    {
        self.add_datagroup_by_id(D::get_id(), init_args)
    }

    /// Datagroups to be created for this entity.
    pub fn get_datagroups(&self) -> (r: &HashMap<DataGroupID, DataGroupInitType<A>>)
        ensures
            r@ == self.spec_datagroups(),
    {
        &self.data_groups
    }

    /// Init parameters of datagroup `id`, if it is to be created.
    pub fn get_datagroup_by_id(&self, id: DataGroupID) -> (r: Option<&DataGroupInitType<A>>)
        ensures
            match r {
                Some(v) => self.spec_datagroups().contains_key(id) && *v
                    == self.spec_datagroups()[id],
                None => !self.spec_datagroups().contains_key(id),
            },
    {
        self.data_groups.get(&id)
    }

    /// Init parameters of datagroup `D`, if it is to be created.
    pub fn get_datagroup<D: IDLocator>(&self) -> (r: Option<&DataGroupInitType<A>>)
        ensures
            match r {
                Some(v) => self.spec_datagroups().contains_key(D::spec_get_id()) && *v
                    == self.spec_datagroups()[D::spec_get_id()],
                None => !self.spec_datagroups().contains_key(D::spec_get_id()),
            },
    {
        self.get_datagroup_by_id(D::get_id())
    }

    /// Add a local system to the entity to be spawned; true if it was not there.
    pub fn add_local_system_by_id(&mut self, id: SystemClassID) -> (r: bool)
        ensures
            r == !old(self).spec_local_systems().contains(id),
            final(self).spec_local_systems() == old(self).spec_local_systems().insert(id),
            final(self).spec_name() == old(self).spec_name(),
            final(self).spec_debug_info() == old(self).spec_debug_info(),
            final(self).spec_datagroups() == old(self).spec_datagroups(),
            final(self).spec_global_systems() == old(self).spec_global_systems(),
    {
        self.local_systems.insert(id)
    }

    /// Add the local system `S` to the entity to be spawned.
    pub fn add_local_system<S: IDLocator>(&mut self) -> (r: bool)
        ensures
            r == !old(self).spec_local_systems().contains(S::spec_get_id()),
            final(self).spec_local_systems() == old(self).spec_local_systems().insert(
                S::spec_get_id(),
            ),
            final(self).spec_name() == old(self).spec_name(),
            final(self).spec_debug_info() == old(self).spec_debug_info(),
            final(self).spec_datagroups() == old(self).spec_datagroups(),
            final(self).spec_global_systems() == old(self).spec_global_systems(),
    {
        self.add_local_system_by_id(S::get_id())
    }

    /// Local systems to be used by this entity.
    pub fn get_local_systems(&self) -> (r: &HashSet<SystemClassID>)
        ensures
            r@ == self.spec_local_systems(),
    {
        &self.local_systems
    }

    /// If local system `id` will be used by this entity.
    pub fn get_local_system_by_id(&self, id: SystemClassID) -> (r: bool)
        ensures
            r == self.spec_local_systems().contains(id),
    {
        self.local_systems.contains(&id)
    }

    /// If local system `S` will be used by this entity.
    pub fn get_local_system<S: IDLocator>(&self) -> (r: bool)
        ensures
            r == self.spec_local_systems().contains(S::spec_get_id()),
    {
        self.get_local_system_by_id(S::get_id())
    }

    /// Add a global system to the entity to be spawned; true if it was not there.
    pub fn add_global_system_by_id(&mut self, id: GlobalSystemID) -> (r: bool)
        ensures
            r == !old(self).spec_global_systems().contains(id),
            final(self).spec_global_systems() == old(self).spec_global_systems().insert(id),
            final(self).spec_name() == old(self).spec_name(),
            final(self).spec_debug_info() == old(self).spec_debug_info(),
            final(self).spec_datagroups() == old(self).spec_datagroups(),
            final(self).spec_local_systems() == old(self).spec_local_systems(),
    {
        self.global_systems.insert(id)
    }

    /// Add the global system `S` to the entity to be spawned.
    pub fn add_global_system<S: IDLocator>(&mut self) -> (r: bool)
        ensures
            r == !old(self).spec_global_systems().contains(S::spec_get_id()),
            final(self).spec_global_systems() == old(self).spec_global_systems().insert(
                S::spec_get_id(),
            ),
            final(self).spec_name() == old(self).spec_name(),
            final(self).spec_debug_info() == old(self).spec_debug_info(),
            final(self).spec_datagroups() == old(self).spec_datagroups(),
            final(self).spec_local_systems() == old(self).spec_local_systems(),
    {
        self.add_global_system_by_id(S::get_id())
    }

    /// Global systems to be used by this entity.
    pub fn get_global_systems(&self) -> (r: &HashSet<GlobalSystemID>)
        ensures
            r@ == self.spec_global_systems(),
    {
        &self.global_systems
    }

    /// If global system `id` will be used by this entity.
    pub fn get_global_system_by_id(&self, id: GlobalSystemID) -> (r: bool)
        ensures
            r == self.spec_global_systems().contains(id),
    {
        self.global_systems.contains(&id)
    }

    /// If global system `S` will be used by this entity.
    pub fn get_global_system<S: IDLocator>(&self) -> (r: bool)
        ensures
            r == self.spec_global_systems().contains(S::spec_get_id()),
    {
        self.get_global_system_by_id(S::get_id())
    }

    /// Take the description apart: name, debug info, datagroups with their init
    /// parameters, local systems and global systems.
    pub fn into_parts(self) -> (r: (
        String,
        String,
        HashMap<DataGroupID, DataGroupInitType<A>>,
        HashSet<SystemClassID>,
        HashSet<GlobalSystemID>,
    ))
        ensures
            r.0@ == self.spec_name(),
            r.1@ == self.spec_debug_info(),
            r.2@ == self.spec_datagroups(),
            r.3@ == self.spec_local_systems(),
            r.4@ == self.spec_global_systems(),
    {
        (self.name, self.debug_info, self.data_groups, self.local_systems, self.global_systems)
    }

    /// Datagroup `id` is known to the registry and its init parameter matches
    /// what the registry says it expects.
    pub open spec fn datagroup_is_valid<F>(&self, registry: Seq<crate::data_group::DataGroupRegistryEntry<F>>, id: DataGroupID) -> bool {
        &&& id < registry.len()
        &&& init_params_check(self.spec_datagroups()[id], registry[id as int].init_desc) is Ok
    }

    /// Checks if the datagroups of this entity make sense: not more than the
    /// indexing type supports, all known to the registry, all with the init
    /// parameters they expect. On failure, the error names an offending
    /// datagroup.
    pub fn check_datagroups<F>(&self, registry: &DataGroupRegistry<F>) -> (r: Result<(), SpawnDescriptionError>)
        ensures
            r is Ok <==> self.spec_datagroups().len() <= MAX_DATAGROUP_LEN && forall|id: DataGroupID|
                #[trigger] self.spec_datagroups().contains_key(id) ==> self.datagroup_is_valid(registry@, id),
            (r matches Err(SpawnDescriptionError::TooManyDataGroups)) <==> self.spec_datagroups().len() > MAX_DATAGROUP_LEN,
            r matches Err(SpawnDescriptionError::UnknownDataGroup(id)) ==> self.spec_datagroups().contains_key(id)
                && id >= registry@.len(),
            r matches Err(SpawnDescriptionError::InvalidInitParams { id, error }) ==> {
                &&& self.spec_datagroups().contains_key(id)
                &&& id < registry@.len()
                &&& init_params_check(self.spec_datagroups()[id], registry@[id as int].init_desc) == Err::<(), InitParamsError>(error)
            },
            !(r matches Err(SpawnDescriptionError::UnknownLocalSystem(_))),
            !(r matches Err(SpawnDescriptionError::MissingDependency { .. })),
            !(r matches Err(SpawnDescriptionError::UnknownGlobalSystem(_))),
            !(r matches Err(SpawnDescriptionError::MissingGlobalSystemDependency { .. })),
    {
        if self.data_groups.len() > MAX_DATAGROUP_LEN as usize {
            return Err(SpawnDescriptionError::TooManyDataGroups);
        }
        for (id, init_param) in it: self.data_groups.iter()
            invariant
                self.spec_datagroups().len() <= MAX_DATAGROUP_LEN,
                it.seq() == vstd::std_specs::hash::spec_hash_map_iter(&self.data_groups).remaining(),
                forall|j: int| 0 <= j < it.index() ==> self.datagroup_is_valid(registry@, *(#[trigger] it.seq()[j]).0),
        {
            let id: DataGroupID = *id;
            proof {
                assert(self.spec_datagroups().contains_key(id));
                assert(self.spec_datagroups()[id] == *init_param);
            }
            if id as usize >= registry.len() {
                return Err(SpawnDescriptionError::UnknownDataGroup(id));
            }
            let entry = registry.get_entry_by_id(id);
            match check_init_params(init_param, entry.init_desc) {
                Ok(()) => {},
                Err(error) => {
                    return Err(SpawnDescriptionError::InvalidInitParams { id, error });
                },
            }
        }
        proof {
            assert forall|id: DataGroupID| #[trigger] self.spec_datagroups().contains_key(id) implies self.datagroup_is_valid(registry@, id) by {
                let v = vstd::std_specs::hash::spec_hash_map_iter(&self.data_groups).remaining();
                assert(v.contains((&id, &self.spec_datagroups()[id])));
                let j = choose|j: int| 0 <= j < v.len() && v[j] == (&id, &self.spec_datagroups()[id]);
                assert(*v[j].0 == id);
            }
        }
        Ok(())
    }

    /// Local system `id` is known to the registry and every datagroup it
    /// requires (not the optional ones) is to be created for this entity.
    pub open spec fn local_system_is_satisfied<F, S>(&self, registry: Seq<crate::local_systems::LocalSystemRegistryEntry<F, S>>, id: SystemClassID) -> bool {
        &&& id < registry.len()
        &&& forall|j: int| 0 <= j < registry[id as int].dependencies@.len() ==> match #[trigger] registry[id as int].dependencies@[j] {
            Dependency::DataGroup(dg) => self.spec_datagroups().contains_key(dg),
            Dependency::OptionalDG(_) => true,
        }
    }

    /// Checks if the local systems of this entity have their dependencies met.
    /// On failure, the error names an offending local system.
    pub fn check_local_systems<F, S>(&self, registry: &LocalSystemRegistry<F, S>) -> (r: Result<(), SpawnDescriptionError>)
        ensures
            r is Ok <==> forall|id: SystemClassID| #[trigger] self.spec_local_systems().contains(id)
                ==> self.local_system_is_satisfied(registry@, id),
            r matches Err(SpawnDescriptionError::UnknownLocalSystem(id)) ==> self.spec_local_systems().contains(id)
                && id >= registry@.len(),
            r matches Err(SpawnDescriptionError::MissingDependency { system, datagroup }) ==> {
                &&& self.spec_local_systems().contains(system)
                &&& system < registry@.len()
                &&& registry@[system as int].dependencies@.contains(Dependency::DataGroup(datagroup))
                &&& !self.spec_datagroups().contains_key(datagroup)
            },
            !(r matches Err(SpawnDescriptionError::TooManyDataGroups)),
            !(r matches Err(SpawnDescriptionError::UnknownDataGroup(_))),
            !(r matches Err(SpawnDescriptionError::InvalidInitParams { .. })),
            !(r matches Err(SpawnDescriptionError::UnknownGlobalSystem(_))),
            !(r matches Err(SpawnDescriptionError::MissingGlobalSystemDependency { .. })),
    {
        for id in it: self.local_systems.iter()
            invariant
                it.seq() == vstd::std_specs::hash::spec_hash_keys_iter(&self.local_systems).remaining(),
                forall|j: int| 0 <= j < it.index() ==> self.local_system_is_satisfied(registry@, *#[trigger] it.seq()[j]),
        {
            let id: SystemClassID = *id;
            proof {
                assert(it.seq().unref().to_set().contains(id)) by {
                    assert(it.seq().unref()[it.index() as int] == id);
                }
                assert(self.spec_local_systems().contains(id));
            }
            if id as usize >= registry.len() {
                return Err(SpawnDescriptionError::UnknownLocalSystem(id));
            }
            let entry = registry.get_entry_by_id(id);
            let mut k: usize = 0;
            while k < entry.dependencies.len()
                invariant
                    k <= entry.dependencies@.len(),
                    id < registry@.len(),
                    self.spec_local_systems().contains(id),
                    *entry == registry@[id as int],
                    forall|j: int| 0 <= j < k ==> match #[trigger] entry.dependencies@[j] {
                        Dependency::DataGroup(dg) => self.spec_datagroups().contains_key(dg),
                        Dependency::OptionalDG(_) => true,
                    },
                decreases entry.dependencies@.len() - k,
            {
                match entry.dependencies[k] {
                    Dependency::DataGroup(dg) => {
                        if !self.data_groups.contains_key(&dg) {
                            proof {
                                assert(entry.dependencies@[k as int] == Dependency::DataGroup(dg));
                                assert(!self.local_system_is_satisfied(registry@, id));
                            }
                            return Err(SpawnDescriptionError::MissingDependency { system: id, datagroup: dg });
                        }
                    },
                    Dependency::OptionalDG(_) => {},
                }
                k = k + 1;
            }
        }
        proof {
            let v = vstd::std_specs::hash::spec_hash_keys_iter(&self.local_systems).remaining();
            assert forall|id: SystemClassID| #[trigger] self.spec_local_systems().contains(id) implies self.local_system_is_satisfied(registry@, id) by {
                assert(v.unref().to_set().contains(id));
                let j = choose|j: int| 0 <= j < v.unref().len() && v.unref()[j] == id;
                assert(*v[j] == id);
            }
        }
        Ok(())
    }

    /// Global system `id` is known (it has a list of dependencies in
    /// `dependencies`) and every datagroup it requires (not the optional ones)
    /// is to be created for this entity.
    pub open spec fn global_system_is_satisfied(&self, dependencies: Seq<Vec<Dependency>>, id: GlobalSystemID) -> bool {
        &&& id < dependencies.len()
        &&& forall|j: int| 0 <= j < dependencies[id as int]@.len() ==> match #[trigger] dependencies[id as int]@[j] {
            Dependency::DataGroup(dg) => self.spec_datagroups().contains_key(dg),
            Dependency::OptionalDG(_) => true,
        }
    }

    /// Checks if the global systems of this entity have their dependencies
    /// met; `dependencies` holds, for each global system, the datagroups it
    /// works on. On failure, the error names an offending global system.
    pub fn check_global_systems(&self, dependencies: &Vec<Vec<Dependency>>) -> (r: Result<(), SpawnDescriptionError>)
        ensures
            r is Ok <==> forall|id: GlobalSystemID| #[trigger] self.spec_global_systems().contains(id)
                ==> self.global_system_is_satisfied(dependencies@, id),
            r matches Err(SpawnDescriptionError::UnknownGlobalSystem(id)) ==> self.spec_global_systems().contains(id)
                && id >= dependencies@.len(),
            r matches Err(SpawnDescriptionError::MissingGlobalSystemDependency { global_system, datagroup }) ==> {
                &&& self.spec_global_systems().contains(global_system)
                &&& global_system < dependencies@.len()
                &&& dependencies@[global_system as int]@.contains(Dependency::DataGroup(datagroup))
                &&& !self.spec_datagroups().contains_key(datagroup)
            },
            !(r matches Err(SpawnDescriptionError::TooManyDataGroups)),
            !(r matches Err(SpawnDescriptionError::UnknownDataGroup(_))),
            !(r matches Err(SpawnDescriptionError::InvalidInitParams { .. })),
            !(r matches Err(SpawnDescriptionError::UnknownLocalSystem(_))),
            !(r matches Err(SpawnDescriptionError::MissingDependency { .. })),
    {
        for id in it: self.global_systems.iter()
            invariant
                it.seq() == vstd::std_specs::hash::spec_hash_keys_iter(&self.global_systems).remaining(),
                forall|j: int| 0 <= j < it.index() ==> self.global_system_is_satisfied(dependencies@, *#[trigger] it.seq()[j]),
        {
            let id: GlobalSystemID = *id;
            proof {
                assert(it.seq().unref().to_set().contains(id)) by {
                    assert(it.seq().unref()[it.index() as int] == id);
                }
                assert(self.spec_global_systems().contains(id));
            }
            if id as usize >= dependencies.len() {
                return Err(SpawnDescriptionError::UnknownGlobalSystem(id));
            }
            let deps = &dependencies[id as usize];
            let mut k: usize = 0;
            while k < deps.len()
                invariant
                    k <= deps@.len(),
                    id < dependencies@.len(),
                    self.spec_global_systems().contains(id),
                    *deps == dependencies@[id as int],
                    forall|j: int| 0 <= j < k ==> match #[trigger] deps@[j] {
                        Dependency::DataGroup(dg) => self.spec_datagroups().contains_key(dg),
                        Dependency::OptionalDG(_) => true,
                    },
                decreases deps@.len() - k,
            {
                match deps[k] {
                    Dependency::DataGroup(dg) => {
                        if !self.data_groups.contains_key(&dg) {
                            proof {
                                assert(deps@[k as int] == Dependency::DataGroup(dg));
                                assert(!self.global_system_is_satisfied(dependencies@, id));
                            }
                            return Err(SpawnDescriptionError::MissingGlobalSystemDependency { global_system: id, datagroup: dg });
                        }
                    },
                    Dependency::OptionalDG(_) => {},
                }
                k = k + 1;
            }
        }
        proof {
            let v = vstd::std_specs::hash::spec_hash_keys_iter(&self.global_systems).remaining();
            assert forall|id: GlobalSystemID| #[trigger] self.spec_global_systems().contains(id) implies self.global_system_is_satisfied(dependencies@, id) by {
                assert(v.unref().to_set().contains(id));
                let j = choose|j: int| 0 <= j < v.unref().len() && v.unref()[j] == id;
                assert(*v[j] == id);
            }
        }
        Ok(())
    }

    /// Check if the entity to be spawned makes sense: its datagroups first,
    /// then the dependencies of its local systems, then those of its global
    /// systems (`global_systems` holds the dependencies of each).
    pub fn check<F, G, S>(
        &self,
        datagroups: &DataGroupRegistry<F>,
        local_systems: &LocalSystemRegistry<G, S>,
        global_systems: &Vec<Vec<Dependency>>,
    ) -> (r: Result<(), SpawnDescriptionError>)
        ensures
            r is Ok <==> {
                &&& self.spec_datagroups().len() <= MAX_DATAGROUP_LEN
                &&& forall|id: DataGroupID| #[trigger] self.spec_datagroups().contains_key(id) ==> self.datagroup_is_valid(datagroups@, id)
                &&& forall|id: SystemClassID| #[trigger] self.spec_local_systems().contains(id) ==> self.local_system_is_satisfied(local_systems@, id)
                &&& forall|id: GlobalSystemID| #[trigger] self.spec_global_systems().contains(id) ==> self.global_system_is_satisfied(global_systems@, id)
            },
    {
        match self.check_datagroups(datagroups) {
            Ok(()) => {},
            Err(e) => return Err(e),
        }
        match self.check_local_systems(local_systems) {
            Ok(()) => {},
            Err(e) => return Err(e),
        }
        self.check_global_systems(global_systems)
    }
}

/// Add the datagroup `D`, required by a local system, to the spawn description
/// if it is not there yet, with the default init parameter for its kind of
/// initialization; an argument it requires is left uninitialized, with `msg`.
pub fn local_system_try_add_datagroup<A, D: IDLocator + DataGroupInitDescTrait>(
    spawn_desc: &mut EntitySpawnDescription<A>,
    msg: &'static str,
)
    ensures
        final(spawn_desc).spec_datagroups() == if old(spawn_desc).spec_datagroups().contains_key(
            D::spec_get_id(),
        ) {
            old(spawn_desc).spec_datagroups()
        } else {
            old(spawn_desc).spec_datagroups().insert(
                D::spec_get_id(),
                default_init(D::spec_init_desc(), msg),
            )
        },
        final(spawn_desc).spec_name() == old(spawn_desc).spec_name(),
        final(spawn_desc).spec_debug_info() == old(spawn_desc).spec_debug_info(),
        final(spawn_desc).spec_local_systems() == old(spawn_desc).spec_local_systems(),
        final(spawn_desc).spec_global_systems() == old(spawn_desc).spec_global_systems(),
{
    let id = D::get_id();
    if spawn_desc.get_datagroup_by_id(id).is_some() {
        return;
    }
    let default_init: DataGroupInitType<A> = match D::init_desc() {
        InitDesc::NoInit => DataGroupInitType::NoInit,
        InitDesc::NoArg => DataGroupInitType::NoArg,
        InitDesc::Arg => DataGroupInitType::Uninitialized(msg),
        InitDesc::OptionalArg => DataGroupInitType::OptionalArg(None),
    };
    spawn_desc.add_datagroup_by_id(id, default_init);
}

} // verus!
