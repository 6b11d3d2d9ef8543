//! Entities: the datagroups an entity was spawned with, sorted by identifier,
//! and the per-stage plan of the local systems that run on them.
use crate::data_group::{
    DataGroup, DataGroupID, DataGroupInitType, DataGroupMeta, DataGroupMetadataLocator,
    DataGroupRegistry,
};
use crate::entity_allocator::EntityPtr;
use crate::entity_spawn_desc::{EntitySpawnDescription, GlobalSystemID};
use crate::hierarchy::{NodeIndex, SpatialHierarchy};
use crate::ids::IDLocator;
use crate::local_systems::{
    dependency_id, Dependency, LocalSystemRegistry, LocalSystemRegistryEntry, StageID, SystemClassID,
    STAGE_COUNT,
};
use crate::stage_tables::{
    set_stage_flag, stage_flag, stage_flags, stage_flags_zero, stage_lists, stage_map_add_stage,
    stage_map_get, stage_map_list_mut, stage_map_new, StageEnabledMap, StageLists, StageMap,
};
use std::collections::HashSet;
use vstd::std_specs::iter::IteratorSpec;
use vstd::prelude::*;

verus! {

broadcast use vstd::std_specs::hash::group_hash_axioms;

pub type EntityID = u64;

/// The invalid entity ID.
pub const INVALID_ENTITY_ID: EntityID = 0u64;

/// Type for use when indexing datagroups in entities. It defines the max
/// number of them in an entity.
pub type DataGroupIndexingType = u16;

/// This is the index considered invalid.
pub const INVALID_DATAGROUP_INDEX: DataGroupIndexingType = 0xFFFFu16;

/// The identifiers of a sequence of datagroups, in order.
pub open spec fn dg_ids<D: DataGroupMeta>(dgs: Seq<D>) -> Seq<DataGroupID> {
    dgs.map_values(|d: D| d.spec_id())
}

/// Every identifier is smaller than the next one.
pub open spec fn strictly_sorted(s: Seq<u32>) -> bool {
    forall|i: int, j: int| 0 <= i < j < s.len() ==> s[i] < s[j]
}

/// The index of datagroup `g` among the identifiers `ids`, or the invalid
/// index when it is not there.
pub open spec fn slot_of(ids: Seq<DataGroupID>, g: DataGroupID) -> DataGroupIndexingType {
    if ids.contains(g) {
        ids.index_of(g) as DataGroupIndexingType
    } else {
        INVALID_DATAGROUP_INDEX
    }
}

/// The datagroup indices that a local system with these dependencies receives.
pub open spec fn dependency_slots(ids: Seq<DataGroupID>, deps: Seq<Dependency>) -> Seq<DataGroupIndexingType> {
    deps.map_values(
        |d: Dependency|
            match d {
                Dependency::DataGroup(g) => slot_of(ids, g),
                Dependency::OptionalDG(g) => slot_of(ids, g),
            },
    )
}

/// A local system receives, for each of its dependencies, required or
/// optional alike, the position of that datagroup among the entity's
/// datagroups when the entity has it, and the invalid index only when the
/// entity lacks it.
pub proof fn law_dependency_slots_point_at_their_datagroups(ids: Seq<DataGroupID>, deps: Seq<Dependency>)
    requires
        ids.len() <= INVALID_DATAGROUP_INDEX,
    ensures
        dependency_slots(ids, deps).len() == deps.len(),
        forall|j: int| 0 <= j < deps.len() && ids.contains(dependency_id(deps[j])) ==> {
            &&& (#[trigger] dependency_slots(ids, deps)[j]) < ids.len()
            &&& ids[dependency_slots(ids, deps)[j] as int] == dependency_id(deps[j])
        },
        forall|j: int| 0 <= j < deps.len() && !ids.contains(dependency_id(deps[j]))
            ==> #[trigger] dependency_slots(ids, deps)[j] == INVALID_DATAGROUP_INDEX,
{
    assert forall|j: int| 0 <= j < deps.len() && ids.contains(dependency_id(deps[j])) implies {
        &&& (#[trigger] dependency_slots(ids, deps)[j]) < ids.len()
        &&& ids[dependency_slots(ids, deps)[j] as int] == dependency_id(deps[j])
    } by {
        let g = dependency_id(deps[j]);
        let k = ids.index_of(g);
        assert(0 <= k < ids.len() && ids[k] == g);
        assert(dependency_slots(ids, deps)[j] == slot_of(ids, g));
        assert(slot_of(ids, g) as int == k);
    }
    assert forall|j: int| 0 <= j < deps.len() && !ids.contains(dependency_id(deps[j]))
        implies #[trigger] dependency_slots(ids, deps)[j] == INVALID_DATAGROUP_INDEX by {
        assert(dependency_slots(ids, deps)[j] == slot_of(ids, dependency_id(deps[j])));
    }
}

/// Number of stages in which a system has a function.
pub open spec fn count_stages<F>(fns: Seq<Option<F>>) -> nat
    decreases fns.len(),
{
    if fns.len() == 0 {
        0
    } else {
        count_stages(fns.drop_last()) + if fns.last() is Some {
            1nat
        } else {
            0nat
        }
    }
}

/// `s` repeated `n` times.
pub open spec fn repeated<T>(s: Seq<T>, n: nat) -> Seq<T>
    decreases n,
{
    if n == 0 {
        Seq::empty()
    } else {
        repeated(s, (n - 1) as nat) + s
    }
}

/// The datagroup indices of all the runs of the systems `sys`: for each system
/// in order, its dependency indices once per stage in which it has a function.
pub open spec fn plan_indices<F, S>(
    ids: Seq<DataGroupID>,
    registry: Seq<LocalSystemRegistryEntry<F, S>>,
    sys: Seq<SystemClassID>,
) -> Seq<DataGroupIndexingType>
    decreases sys.len(),
{
    if sys.len() == 0 {
        Seq::empty()
    } else {
        let e = registry[sys.last() as int];
        plan_indices(ids, registry, sys.drop_last()) + repeated(
            dependency_slots(ids, e.dependencies@),
            count_stages(e.functions@),
        )
    }
}

/// The systems of `sys` that run in `stage`, in order, each with the number
/// of datagroup indices it takes.
pub open spec fn plan_stage<F, S>(
    registry: Seq<LocalSystemRegistryEntry<F, S>>,
    sys: Seq<SystemClassID>,
    stage: int,
) -> Seq<(DataGroupIndexingType, SystemClassID)>
    decreases sys.len(),
{
    if sys.len() == 0 {
        Seq::empty()
    } else {
        let e = registry[sys.last() as int];
        plan_stage(registry, sys.drop_last(), stage) + if e.functions@[stage] is Some {
            seq![(e.dependencies@.len() as DataGroupIndexingType, sys.last())]
        } else {
            Seq::empty()
        }
    }
}

/// What the datagroup created by a factory becomes with its init parameter.
pub open spec fn initialized<A, D: DataGroup<A>>(d: D, p: DataGroupInitType<A>) -> D {
    match p {
        DataGroupInitType::NoArg => d.spec_init(None),
        DataGroupInitType::Arg(a) => d.spec_init(Some(a)),
        DataGroupInitType::OptionalArg(o) => d.spec_init(o),
        _ => d,
    }
}

/// An entity: its datagroups sorted by identifier and the plan of the local
/// systems that run on them, stage by stage.
pub struct Entity<D> {
    id: EntityID,
    self_ptr: EntityPtr,
    name: String,
    debug_info: String,
    datagroups: Vec<D>,
    local_systems_indices: Vec<DataGroupIndexingType>,
    local_systems_map: HashSet<SystemClassID>,
    ls_stage_enabled_map: StageEnabledMap,
    stage_map: StageMap,
    global_systems: HashSet<GlobalSystemID>,
    transform_index: DataGroupIndexingType,
}

impl<D> Entity<D> {
    pub closed spec fn spec_id(&self) -> EntityID {
        self.id
    }

    pub closed spec fn spec_self_ptr(&self) -> EntityPtr {
        self.self_ptr
    }

    pub closed spec fn spec_name(&self) -> Seq<char> {
        self.name@
    }

    pub closed spec fn spec_debug_info(&self) -> Seq<char> {
        self.debug_info@
    }

    /// The datagroups, sorted by identifier.
    pub closed spec fn spec_datagroups(&self) -> Seq<D> {
        self.datagroups@
    }

    /// The datagroup indices of all the system runs, run after run.
    pub closed spec fn spec_indices(&self) -> Seq<DataGroupIndexingType> {
        self.local_systems_indices@
    }

    pub closed spec fn spec_local_systems(&self) -> Set<SystemClassID> {
        self.local_systems_map@
    }

    pub closed spec fn spec_global_systems(&self) -> Set<GlobalSystemID> {
        self.global_systems@
    }

    /// Whether each stage has local systems to run.
    pub closed spec fn spec_stage_flags(&self) -> Seq<bool> {
        stage_flags(self.ls_stage_enabled_map)
    }

    /// The systems to run in each enabled stage.
    pub closed spec fn spec_stage_lists(&self) -> StageLists {
        stage_lists(self.stage_map)
    }

    /// Index of the transform datagroup, or the invalid index.
    pub closed spec fn spec_transform_index(&self) -> DataGroupIndexingType {
        self.transform_index
    }

    /// The stages map has a list exactly for the enabled stages.
    pub open spec fn wf_stages(&self) -> bool {
        &&& self.spec_stage_flags().len() == STAGE_COUNT
        &&& forall|s: StageID| #[trigger]
            self.spec_stage_lists().contains_key(s) == self.spec_stage_flags()[s as int]
    }
}

impl<D> Entity<D> {
    /// The stage plan is consistent: a list exactly for each enabled stage,
    /// and no list takes more datagroup indices than there are.
    pub open spec fn plan_ok(&self) -> bool {
        &&& self.wf_stages()
        &&& forall|st: StageID| #[trigger] self.spec_stage_lists().contains_key(st)
            ==> indices_taken(self.spec_stage_lists()[st]) <= self.spec_indices().len()
    }

    /// Well formed: the datagroups are sorted by identifier, no more than the
    /// invalid index, the transform index is invalid or one of them, and the
    /// stage plan is consistent.
    pub open spec fn wf(&self) -> bool where D: DataGroupMeta {
        &&& strictly_sorted(dg_ids(self.spec_datagroups()))
        &&& self.spec_datagroups().len() <= INVALID_DATAGROUP_INDEX
        &&& (self.spec_transform_index() == INVALID_DATAGROUP_INDEX
            || self.spec_transform_index() < self.spec_datagroups().len())
        &&& self.plan_ok()
    }

    /// Every system that the entity runs in `stage_id` is in `registry` with a
    /// function for the stage, which accepts any indices and datagroups.
    pub open spec fn systems_can_run<W, F, G>(&self, registry: &LocalSystemRegistry<F, G>, world: &W, stage_id: StageID) -> bool
        where F: Fn(&W, EntityID, &[DataGroupIndexingType], &mut Vec<D>)
    {
        forall|k: int| 0 <= k < self.spec_stage_lists()[stage_id].len() ==> {
            let sys = #[trigger] self.spec_stage_lists()[stage_id][k].1;
            &&& sys < registry@.len()
            &&& registry@[sys as int].functions@[stage_id as int] is Some
            &&& forall|ix: &[DataGroupIndexingType], d: &mut Vec<D>| call_requires(
                registry@[sys as int].functions@[stage_id as int]->0,
                (world, self.spec_id(), ix, d),
            )
        }
    }
}

/// Two entities agree on everything but their datagroups.
pub open spec fn same_but_datagroups<D>(a: Entity<D>, b: Entity<D>) -> bool {
    &&& a.spec_id() == b.spec_id()
    &&& a.spec_self_ptr() == b.spec_self_ptr()
    &&& a.spec_name() == b.spec_name()
    &&& a.spec_debug_info() == b.spec_debug_info()
    &&& a.spec_indices() == b.spec_indices()
    &&& a.spec_local_systems() == b.spec_local_systems()
    &&& a.spec_global_systems() == b.spec_global_systems()
    &&& a.spec_stage_flags() == b.spec_stage_flags()
    &&& a.spec_stage_lists() == b.spec_stage_lists()
    &&& a.spec_transform_index() == b.spec_transform_index()
}

/// Position of the datagroup with identifier `id` among datagroups sorted by
/// identifier, by binary search.
pub fn find_datagroup<D: DataGroupMeta>(dgs: &Vec<D>, id: DataGroupID) -> (r: Option<usize>)
    requires
        strictly_sorted(dg_ids(dgs@)),
    ensures
        match r {
            Some(p) => p < dgs@.len() && dgs@[p as int].spec_id() == id,
            None => !dg_ids(dgs@).contains(id),
        },
{
    let mut lo: usize = 0;
    let mut hi: usize = dgs.len();
    while lo < hi
        invariant
            0 <= lo <= hi <= dgs@.len(),
            strictly_sorted(dg_ids(dgs@)),
            forall|i: int| 0 <= i < lo ==> #[trigger] dgs@[i].spec_id() < id,
            forall|i: int| hi <= i < dgs@.len() ==> #[trigger] dgs@[i].spec_id() > id,
        decreases hi - lo,
    {
        let mid = lo + (hi - lo) / 2;
        let k = dgs[mid].get_id();
        proof {
            assert(dg_ids(dgs@)[mid as int] == k);
        }
        if k == id {
            return Some(mid);
        } else if k < id {
            proof {
                assert forall|i: int| 0 <= i <= mid implies #[trigger] dgs@[i].spec_id() < id by {
                    if i < mid {
                        assert(dg_ids(dgs@)[i] < dg_ids(dgs@)[mid as int]);
                    }
                }
            }
            lo = mid + 1;
        } else {
            proof {
                assert forall|i: int| mid <= i < dgs@.len() implies #[trigger] dgs@[i].spec_id() > id by {
                    if i > mid {
                        assert(dg_ids(dgs@)[mid as int] < dg_ids(dgs@)[i]);
                    }
                }
            }
            hi = mid;
        }
    }
    proof {
        assert forall|i: int| 0 <= i < dgs@.len() implies dg_ids(dgs@)[i] != id by {
            assert(dg_ids(dgs@)[i] == dgs@[i].spec_id());
        }
    }
    None
}

/// In identifiers sorted without repetition, the index of an identifier is
/// the position where it sits.
pub proof fn lemma_index_of_sorted(ids: Seq<DataGroupID>, p: int)
    requires
        strictly_sorted(ids),
        0 <= p < ids.len(),
    ensures
        ids.contains(ids[p]),
        ids.index_of(ids[p]) == p,
{
    assert(ids.contains(ids[p]));
    let q = ids.index_of(ids[p]);
    if q < p {
        assert(ids[q] < ids[p]);
    } else if q > p {
        assert(ids[p] < ids[q]);
    }
}

/// Insert `x` into identifiers sorted without repetition.
fn insert_sorted(v: &mut Vec<u32>, x: u32)
    requires
        strictly_sorted(old(v)@),
        !old(v)@.contains(x),
    ensures
        strictly_sorted(final(v)@),
        forall|y: u32| final(v)@.contains(y) <==> (old(v)@.contains(y) || y == x),
{
    let mut i: usize = 0;
    while i < v.len() && v[i] < x
        invariant
            i <= v@.len(),
            forall|j: int| 0 <= j < i ==> v@[j] < x,
        decreases v@.len() - i,
    {
        i = i + 1;
    }
    let ghost v0 = v@;
    proof {
        if i < v0.len() {
            assert(v0[i as int] != x);
        }
    }
    v.insert(i, x);
    proof {
        let v1 = v@;
        assert(v1 == v0.insert(i as int, x));
        assert forall|a: int, b: int| 0 <= a < b < v1.len() implies v1[a] < v1[b] by {
            if b < i {
            } else if b == i {
            } else if a < i {
                assert(v0[a] < x);
                assert(x < v0[i as int] || i == b - 1);
                if i < b - 1 {
                    assert(v0[i as int] <= v0[b - 1]);
                }
            } else if a == i {
                assert(x < v0[i as int]);
                if i < b - 1 {
                    assert(v0[i as int] < v0[b - 1]);
                }
            } else {
                assert(v0[a - 1] < v0[b - 1]);
            }
        }
        assert forall|y: u32| v1.contains(y) <==> (v0.contains(y) || y == x) by {
            if v1.contains(y) {
                let j = choose|j: int| 0 <= j < v1.len() && v1[j] == y;
                if j < i {
                    assert(v0[j] == y);
                } else if j > i {
                    assert(v0[j - 1] == y);
                }
            }
            if v0.contains(y) {
                let j = choose|j: int| 0 <= j < v0.len() && v0[j] == y;
                if j < i {
                    assert(v1[j] == y);
                } else {
                    assert(v1[j + 1] == y);
                }
            }
            if y == x {
                assert(v1[i as int] == x);
            }
        }
    }
}

/// The identifiers of the datagroups of a spawn description, sorted.
fn sorted_datagroup_ids<X>(m: &std::collections::HashMap<DataGroupID, X>) -> (r: Vec<DataGroupID>)
    ensures
        strictly_sorted(r@),
        forall|g: DataGroupID| r@.contains(g) <==> m@.contains_key(g),
{
    let mut v: Vec<DataGroupID> = Vec::new();
    for g in it: m.keys()
        invariant
            it.seq() == vstd::std_specs::hash::spec_keys_iter(m).remaining(),
            it.seq().no_duplicates(),
            strictly_sorted(v@),
            forall|y: u32| v@.contains(y) <==> exists|j: int| 0 <= j < it.index() && *it.seq()[j] == y,
    {
        let g: DataGroupID = *g;
        proof {
            if v@.contains(g) {
                let j = choose|j: int| 0 <= j < it.index() && *it.seq()[j] == g;
                assert(it.seq()[j] == it.seq()[it.index() as int]);
            }
        }
        insert_sorted(&mut v, g);
        proof {
            assert forall|y: u32| v@.contains(y) <==> exists|j: int| 0 <= j < it.index() + 1 && *it.seq()[j] == y by {
                if y == g {
                    assert(*it.seq()[it.index() as int] == y);
                }
            }
        }
    }
    proof {
        let ks = vstd::std_specs::hash::spec_keys_iter(m).remaining();
        assert forall|g: DataGroupID| v@.contains(g) <==> m@.contains_key(g) by {
            if m@.contains_key(g) {
                assert(ks.unref().to_set().contains(g));
                let j = choose|j: int| 0 <= j < ks.unref().len() && ks.unref()[j] == g;
                assert(*ks[j] == g);
            }
            if v@.contains(g) {
                let j = choose|j: int| 0 <= j < ks.len() && *ks[j] == g;
                assert(ks.unref()[j] == g);
                assert(ks.unref().to_set().contains(g));
            }
        }
    }
    v
}

/// The identifiers of a set of systems, sorted.
pub(crate) fn sorted_system_ids(m: &HashSet<SystemClassID>) -> (r: Vec<SystemClassID>)
    ensures
        strictly_sorted(r@),
        forall|g: SystemClassID| r@.contains(g) <==> m@.contains(g),
{
    let mut v: Vec<SystemClassID> = Vec::new();
    for g in it: m.iter()
        invariant
            it.seq() == vstd::std_specs::hash::spec_hash_keys_iter(m).remaining(),
            it.seq().no_duplicates(),
            strictly_sorted(v@),
            forall|y: u32| v@.contains(y) <==> exists|j: int| 0 <= j < it.index() && *it.seq()[j] == y,
    {
        let g: SystemClassID = *g;
        proof {
            if v@.contains(g) {
                let j = choose|j: int| 0 <= j < it.index() && *it.seq()[j] == g;
                assert(it.seq()[j] == it.seq()[it.index() as int]);
            }
        }
        insert_sorted(&mut v, g);
        proof {
            assert forall|y: u32| v@.contains(y) <==> exists|j: int| 0 <= j < it.index() + 1 && *it.seq()[j] == y by {
                if y == g {
                    assert(*it.seq()[it.index() as int] == y);
                }
            }
        }
    }
    proof {
        let ks = vstd::std_specs::hash::spec_hash_keys_iter(m).remaining();
        assert forall|g: SystemClassID| v@.contains(g) <==> m@.contains(g) by {
            if m@.contains(g) {
                assert(ks.unref().to_set().contains(g));
                let j = choose|j: int| 0 <= j < ks.unref().len() && ks.unref()[j] == g;
                assert(*ks[j] == g);
            }
            if v@.contains(g) {
                let j = choose|j: int| 0 <= j < ks.len() && *ks[j] == g;
                assert(ks.unref()[j] == g);
                assert(ks.unref().to_set().contains(g));
            }
        }
    }
    v
}

/// The factory of every datagroup of `params` can be called and creates a
/// datagroup with that identifier, and none of them is left uninitialized.
pub open spec fn datagroups_can_be_created<A, D: DataGroup<A>, F: Fn() -> D>(
    params: Map<DataGroupID, DataGroupInitType<A>>,
    registry: Seq<crate::data_group::DataGroupRegistryEntry<F>>,
) -> bool {
    forall|g: DataGroupID| #[trigger] params.contains_key(g) ==> {
        &&& g < registry.len()
        &&& call_requires(registry[g as int].factory_func, ())
        &&& forall|d: D| call_ensures(registry[g as int].factory_func, (), d) ==> d.spec_id() == g
        &&& !(params[g] is Uninitialized)
    }
}

/// `d` is what the registered factory of datagroup `g` creates, initialized
/// with the parameter `params` has for `g`.
pub open spec fn created_from<A, D: DataGroup<A>, F: Fn() -> D>(
    registry: Seq<crate::data_group::DataGroupRegistryEntry<F>>,
    params: Map<DataGroupID, DataGroupInitType<A>>,
    g: DataGroupID,
    d: D,
) -> bool {
    exists|d0: D|
        call_ensures(registry[g as int].factory_func, (), d0) && d == initialized(d0, params[g])
}

/// Create the datagroups with identifiers `ids`, in that order, with the
/// registered factories, and initialize each with its parameter. Also gives
/// the index of the datagroup `transform_id` among them.
fn create_datagroups<A, D: DataGroup<A>, F: Fn() -> D>(
    ids: &Vec<DataGroupID>,
    params: std::collections::HashMap<DataGroupID, DataGroupInitType<A>>,
    registry: &DataGroupRegistry<F>,
    transform_id: DataGroupID,
) -> (r: (Vec<D>, DataGroupIndexingType))
    requires
        strictly_sorted(ids@),
        ids@.len() <= INVALID_DATAGROUP_INDEX,
        forall|g: DataGroupID| ids@.contains(g) <==> params@.contains_key(g),
        datagroups_can_be_created(params@, registry@),
    ensures
        dg_ids(r.0@) == ids@,
        forall|i: int| 0 <= i < ids@.len() ==> created_from(registry@, params@, ids@[i], #[trigger] r.0@[i]),
        r.1 == slot_of(ids@, transform_id),
{
    let ghost params0 = params@;
    let mut params = params;
    let mut dgs: Vec<D> = Vec::new();
    let mut transform_index: DataGroupIndexingType = INVALID_DATAGROUP_INDEX;
    let mut k: usize = 0;
    proof {
        assert forall|j: int| 0 <= j < ids@.len() implies params@.contains_key(#[trigger] ids@[j]) by {
            assert(ids@.contains(ids@[j]));
        }
    }
    while k < ids.len()
        invariant
            k <= ids@.len(),
            strictly_sorted(ids@),
            ids@.len() <= INVALID_DATAGROUP_INDEX,
            forall|g: DataGroupID| ids@.contains(g) <==> params0.contains_key(g),
            datagroups_can_be_created(params0, registry@),
            params@.submap_of(params0),
            forall|j: int| k <= j < ids@.len() ==> params@.contains_key(#[trigger] ids@[j]),
            dgs@.len() == k,
            forall|i: int| 0 <= i < k ==> (#[trigger] dgs@[i]).spec_id() == ids@[i],
            forall|i: int| 0 <= i < k ==> created_from(registry@, params0, ids@[i], #[trigger] dgs@[i]),
            transform_index == if ids@.take(k as int).contains(transform_id) {
                slot_of(ids@, transform_id)
            } else {
                INVALID_DATAGROUP_INDEX
            },
        decreases ids@.len() - k,
    {
        let id = ids[k];
        proof {
            assert(ids@.contains(id));
            assert(params0.contains_key(id));
        }
        let ghost before = params@;
        proof {
            assert(before.contains_key(ids@[k as int]));
        }
        let param = params.remove(&id);
        proof {
            assert(params@ == before.remove(id));
        }
        let param = match param {
            Some(p) => p,
            None => {
                proof {
                    assert(false);
                }
                return (dgs, transform_index);
            },
        };
        let ghost p0 = param;
        let mut dg = registry.create_by_id(id);
        let ghost d0 = dg;
        match param {
            DataGroupInitType::Uninitialized(_) => {
                proof {
                    assert(!(params0[id] is Uninitialized));
                }
            },
            DataGroupInitType::NoInit => {},
            DataGroupInitType::NoArg => dg.__init__(None),
            DataGroupInitType::Arg(a) => dg.__init__(Some(a)),
            DataGroupInitType::OptionalArg(o) => dg.__init__(o),
        }
        proof {
            assert(dg == initialized(d0, p0));
            assert(p0 == params0[id]);
            assert(d0.spec_id() == id);
            assert(call_ensures(registry@[ids@[k as int] as int].factory_func, (), d0));
        }
        let ghost old_dgs = dgs@;
        dgs.push(dg);
        if id == transform_id {
            transform_index = k as DataGroupIndexingType;
        }
        proof {
            assert forall|i: int| 0 <= i < k + 1 implies created_from(registry@, params0, ids@[i], #[trigger] dgs@[i]) by {
                if i < k {
                    assert(dgs@[i] == old_dgs[i]);
                } else {
                    assert(dgs@[i] == initialized(d0, params0[ids@[i]]));
                }
            }
            assert(before.remove(id).submap_of(before));
            vstd::map_lib::lemma_submap_of_trans(params@, before, params0);
            assert forall|j: int| k + 1 <= j < ids@.len() implies params@.contains_key(#[trigger] ids@[j]) by {
                assert(ids@[k as int] < ids@[j]);
            }
            let t0 = ids@.take(k as int);
            let t1 = ids@.take(k + 1);
            assert(t1 == t0.push(id));
            if id == transform_id {
                lemma_index_of_sorted(ids@, k as int);
                assert(t1.contains(transform_id)) by {
                    assert(t1[k as int] == id);
                }
            } else {
                assert(t1.contains(transform_id) == t0.contains(transform_id)) by {
                    if t1.contains(transform_id) {
                        let j = choose|j: int| 0 <= j < t1.len() && t1[j] == transform_id;
                        assert(t0[j] == transform_id);
                    }
                }
            }
        }
        k = k + 1;
    }
    proof {
        assert(ids@.take(k as int) == ids@);
        assert(dg_ids(dgs@) == ids@);
    }
    (dgs, transform_index)
}

/// The dependency indices of a local system, computed from the sorted datagroups.
fn dependency_slot_vec<D: DataGroupMeta>(dgs: &Vec<D>, deps: &Vec<Dependency>) -> (r: Vec<DataGroupIndexingType>)
    requires
        strictly_sorted(dg_ids(dgs@)),
        dgs@.len() <= INVALID_DATAGROUP_INDEX,
    ensures
        r@ == dependency_slots(dg_ids(dgs@), deps@),
{
    let ghost ids = dg_ids(dgs@);
    let mut r: Vec<DataGroupIndexingType> = Vec::new();
    let mut j: usize = 0;
    while j < deps.len()
        invariant
            j <= deps@.len(),
            ids == dg_ids(dgs@),
            strictly_sorted(ids),
            dgs@.len() <= INVALID_DATAGROUP_INDEX,
            r@.len() == j,
            forall|i: int| 0 <= i < j ==> #[trigger] r@[i] == dependency_slots(ids, deps@)[i],
        decreases deps@.len() - j,
    {
        let g = match deps[j] {
            Dependency::DataGroup(g) => g,
            Dependency::OptionalDG(g) => g,
        };
        let slot = match find_datagroup(dgs, g) {
            Some(p) => {
                proof {
                    assert(ids[p as int] == g);
                    lemma_index_of_sorted(ids, p as int);
                }
                p as DataGroupIndexingType
            },
            None => INVALID_DATAGROUP_INDEX,
        };
        proof {
            assert(slot == slot_of(ids, g));
        }
        r.push(slot);
        j = j + 1;
    }
    proof {
        assert(r@ =~= dependency_slots(ids, deps@));
    }
    r
}

/// Append `s` at the end of `v`.
fn append_slots(v: &mut Vec<DataGroupIndexingType>, s: &Vec<DataGroupIndexingType>)
    ensures
        final(v)@ == old(v)@ + s@,
{
    let mut j: usize = 0;
    while j < s.len()
        invariant
            j <= s@.len(),
            v@ == old(v)@ + s@.take(j as int),
        decreases s@.len() - j,
    {
        v.push(s[j]);
        j = j + 1;
        proof {
            assert(s@.take(j as int) =~= s@.take(j - 1).push(s@[j - 1]));
        }
    }
    proof {
        assert(s@.take(j as int) =~= s@);
    }
}

proof fn lemma_plan_stage_step<F, S>(
    registry: Seq<LocalSystemRegistryEntry<F, S>>,
    sys: Seq<SystemClassID>,
    k: int,
    stage: int,
)
    requires
        0 <= k < sys.len(),
    ensures
        plan_stage(registry, sys.take(k + 1), stage) == plan_stage(registry, sys.take(k), stage) + if registry[sys[k] as int].functions@[stage] is Some {
            seq![(registry[sys[k] as int].dependencies@.len() as DataGroupIndexingType, sys[k])]
        } else {
            Seq::empty()
        },
{
    assert(sys.take(k + 1).drop_last() =~= sys.take(k));
}

proof fn lemma_plan_indices_step<F, S>(
    ids: Seq<DataGroupID>,
    registry: Seq<LocalSystemRegistryEntry<F, S>>,
    sys: Seq<SystemClassID>,
    k: int,
)
    requires
        0 <= k < sys.len(),
    ensures
        plan_indices(ids, registry, sys.take(k + 1)) == plan_indices(ids, registry, sys.take(k)) + repeated(
            dependency_slots(ids, registry[sys[k] as int].dependencies@),
            count_stages(registry[sys[k] as int].functions@),
        ),
{
    assert(sys.take(k + 1).drop_last() =~= sys.take(k));
}

proof fn lemma_count_stages_step<F>(fns: Seq<Option<F>>, t: int)
    requires
        0 <= t < fns.len(),
    ensures
        count_stages(fns.take(t + 1)) == count_stages(fns.take(t)) + if fns[t] is Some {
            1nat
        } else {
            0nat
        },
{
    assert(fns.take(t + 1).drop_last() =~= fns.take(t));
}

/// For the stages from `lo` to `hi`: the flag says whether the systems `sys`
/// have something to run there, and the list of an enabled stage is the plan.
pub open spec fn tables_match<F, S>(
    flags: Seq<bool>,
    lists: StageLists,
    registry: Seq<LocalSystemRegistryEntry<F, S>>,
    sys: Seq<SystemClassID>,
    lo: int,
    hi: int,
) -> bool {
    forall|s: StageID| lo <= s < hi ==> {
        &&& #[trigger] flags[s as int] == (plan_stage(registry, sys, s as int).len() > 0)
        &&& lists.contains_key(s) == flags[s as int]
        &&& flags[s as int] ==> lists[s] == plan_stage(registry, sys, s as int)
    }
}

/// Build the per-stage plan of the local systems `sys`, in that order: the
/// enabled stages, the systems to run in each, and the datagroup indices of
/// every run.
fn build_stage_plan<D: DataGroupMeta, F, S>(
    dgs: &Vec<D>,
    sys: &Vec<SystemClassID>,
    registry: &LocalSystemRegistry<F, S>,
) -> (r: (Vec<DataGroupIndexingType>, StageEnabledMap, StageMap))
    requires
        strictly_sorted(dg_ids(dgs@)),
        dgs@.len() <= INVALID_DATAGROUP_INDEX,
        forall|i: int| 0 <= i < sys@.len() ==> {
            &&& #[trigger] sys@[i] < registry@.len()
            &&& registry@[sys@[i] as int].dependencies@.len() <= u16::MAX
        },
    ensures
        r.0@ == plan_indices(dg_ids(dgs@), registry@, sys@),
        stage_flags(r.1).len() == STAGE_COUNT,
        tables_match(stage_flags(r.1), stage_lists(r.2), registry@, sys@, 0, STAGE_COUNT as int),
{
    let ghost ids = dg_ids(dgs@);
    let mut indices: Vec<DataGroupIndexingType> = Vec::new();
    let mut flags = stage_flags_zero();
    let mut lists = stage_map_new();
    let mut k: usize = 0;
    proof {
        assert(sys@.take(0) =~= Seq::<SystemClassID>::empty());
    }
    while k < sys.len()
        invariant
            k <= sys@.len(),
            ids == dg_ids(dgs@),
            strictly_sorted(ids),
            dgs@.len() <= INVALID_DATAGROUP_INDEX,
            forall|i: int| 0 <= i < sys@.len() ==> {
                &&& #[trigger] sys@[i] < registry@.len()
                &&& registry@[sys@[i] as int].dependencies@.len() <= u16::MAX
            },
            indices@ == plan_indices(ids, registry@, sys@.take(k as int)),
            stage_flags(flags).len() == STAGE_COUNT,
            tables_match(stage_flags(flags), stage_lists(lists), registry@, sys@.take(k as int), 0, STAGE_COUNT as int),
        decreases sys@.len() - k,
    {
        let id = sys[k];
        proof {
            assert(sys@[k as int] < registry@.len());
        }
        let entry = registry.get_entry_by_id(id);
        let slots = dependency_slot_vec(dgs, &entry.dependencies);
        let n_deps = entry.dependencies.len() as DataGroupIndexingType;
        let ghost fns = entry.functions@;
        let ghost base = indices@;
        let mut t: usize = 0;
        proof {
            assert(fns.take(0) =~= Seq::<Option<F>>::empty());
        }
        while t < STAGE_COUNT
            invariant
                k < sys@.len(),
                t <= STAGE_COUNT,
                id == sys@[k as int],
                *entry == registry@[id as int],
                fns == entry.functions@,
                fns.len() == STAGE_COUNT,
                n_deps == entry.dependencies@.len(),
                slots@ == dependency_slots(ids, entry.dependencies@),
                base == plan_indices(ids, registry@, sys@.take(k as int)),
                indices@ == base + repeated(slots@, count_stages(fns.take(t as int))),
                stage_flags(flags).len() == STAGE_COUNT,
                tables_match(stage_flags(flags), stage_lists(lists), registry@, sys@.take(k + 1), 0, t as int),
                tables_match(stage_flags(flags), stage_lists(lists), registry@, sys@.take(k as int), t as int, STAGE_COUNT as int),
            decreases STAGE_COUNT - t,
        {
            let ghost f0 = stage_flags(flags);
            let ghost l0 = stage_lists(lists);
            let stage = t as StageID;
            proof {
                lemma_plan_stage_step(registry@, sys@, k as int, t as int);
                lemma_count_stages_step(fns, t as int);
                assert(f0[stage as int] == (plan_stage(registry@, sys@.take(k as int), t as int).len() > 0));
            }
            if entry.functions[t].is_some() {
                if !stage_flag(&flags, t) {
                    set_stage_flag(&mut flags, t, true);
                    stage_map_add_stage(&mut lists, stage);
                    proof {
                        assert(plan_stage(registry@, sys@.take(k as int), t as int) =~= Seq::empty());
                    }
                }
                append_slots(&mut indices, &slots);
                let list = stage_map_list_mut(&mut lists, stage);
                list.push((n_deps, id));
            }
            proof {
                let f1 = stage_flags(flags);
                let l1 = stage_lists(lists);
                let c = count_stages(fns.take(t as int));
                assert(repeated(slots@, c + 1) == repeated(slots@, c) + slots@);
                assert(f1.len() == STAGE_COUNT);
                assert forall|s: StageID| 0 <= s < t + 1 implies {
                    &&& #[trigger] f1[s as int] == (plan_stage(registry@, sys@.take(k + 1), s as int).len() > 0)
                    &&& l1.contains_key(s) == f1[s as int]
                    &&& f1[s as int] ==> l1[s] == plan_stage(registry@, sys@.take(k + 1), s as int)
                } by {
                    if s < t {
                        assert(f1[s as int] == f0[s as int]);
                        assert(l1.contains_key(s) == l0.contains_key(s));
                        if l0.contains_key(s) {
                            assert(l1[s] == l0[s]);
                        }
                    }
                }
                assert forall|s: StageID| t + 1 <= s < STAGE_COUNT implies {
                    &&& #[trigger] f1[s as int] == (plan_stage(registry@, sys@.take(k as int), s as int).len() > 0)
                    &&& l1.contains_key(s) == f1[s as int]
                    &&& f1[s as int] ==> l1[s] == plan_stage(registry@, sys@.take(k as int), s as int)
                } by {
                    assert(f1[s as int] == f0[s as int]);
                    assert(l1.contains_key(s) == l0.contains_key(s));
                    if l0.contains_key(s) {
                        assert(l1[s] == l0[s]);
                    }
                }
            }
            t = t + 1;
        }
        proof {
            lemma_plan_indices_step(ids, registry@, sys@, k as int);
            assert(fns.take(STAGE_COUNT as int) =~= fns);
        }
        k = k + 1;
    }
    proof {
        assert(sys@.take(k as int) =~= sys@);
    }
    (indices, flags, lists)
}

/// The local systems of a spawn description are known to the registry, take
/// no more datagroup indices than the indexing type counts, and find every
/// datagroup they require.
pub open spec fn local_systems_can_run<A, F, S>(
    systems: Set<SystemClassID>,
    datagroups: Map<DataGroupID, DataGroupInitType<A>>,
    registry: Seq<LocalSystemRegistryEntry<F, S>>,
) -> bool {
    forall|l: SystemClassID| #[trigger] systems.contains(l) ==> {
        &&& l < registry.len()
        &&& registry[l as int].dependencies@.len() <= u16::MAX
        &&& forall|j: int| 0 <= j < registry[l as int].dependencies@.len() ==> match #[trigger] registry[l as int].dependencies@[j] {
            Dependency::DataGroup(g) => datagroups.contains_key(g),
            Dependency::OptionalDG(_) => true,
        }
    }
}

/// The identifiers of a set, in increasing order.
pub open spec fn sorted_elements(s: Set<u32>, r: Seq<u32>) -> bool {
    strictly_sorted(r) && forall|x: u32| r.contains(x) <==> s.contains(x)
}

proof fn lemma_sorted_no_duplicates(r: Seq<u32>)
    requires
        strictly_sorted(r),
    ensures
        r.no_duplicates(),
{
    assert forall|i: int, j: int| 0 <= i < r.len() && 0 <= j < r.len() && i != j implies r[i] != r[j] by {
        if i < j {
            assert(r[i] < r[j]);
        } else {
            assert(r[j] < r[i]);
        }
    }
}

impl<D> Entity<D> {
    /// Build an entity from its spawn description: create its datagroups
    /// with the registered factories, sorted by identifier, and initialize
    /// them with their parameters; find the transform datagroup
    /// `transform_id`; and plan, stage by stage, the local systems taken in
    /// increasing identifier order.
    pub fn init<A, F: Fn() -> D, G, S>(
        id: EntityID,
        self_ptr: EntityPtr,
        spawn_desc: EntitySpawnDescription<A>,
        dg_registry: &DataGroupRegistry<F>,
        ls_registry: &LocalSystemRegistry<G, S>,
        transform_id: DataGroupID,
    ) -> (e: Self) where D: DataGroup<A>
        requires
            spawn_desc.spec_datagroups().len() <= INVALID_DATAGROUP_INDEX,
            datagroups_can_be_created(spawn_desc.spec_datagroups(), dg_registry@),
            local_systems_can_run(spawn_desc.spec_local_systems(), spawn_desc.spec_datagroups(), ls_registry@),
        ensures
            e.wf(),
            e.spec_id() == id,
            e.spec_self_ptr() == self_ptr,
            e.spec_name() == spawn_desc.spec_name(),
            e.spec_debug_info() == spawn_desc.spec_debug_info(),
            e.spec_local_systems() == spawn_desc.spec_local_systems(),
            e.spec_global_systems() == spawn_desc.spec_global_systems(),
            forall|g: DataGroupID| dg_ids(e.spec_datagroups()).contains(g) <==> spawn_desc.spec_datagroups().contains_key(g),
            forall|i: int| 0 <= i < e.spec_datagroups().len() ==> created_from(
                dg_registry@,
                spawn_desc.spec_datagroups(),
                dg_ids(e.spec_datagroups())[i],
                #[trigger] e.spec_datagroups()[i],
            ),
            e.spec_transform_index() == slot_of(dg_ids(e.spec_datagroups()), transform_id),
            exists|sys: Seq<SystemClassID>| {
                &&& sorted_elements(spawn_desc.spec_local_systems(), sys)
                &&& e.spec_indices() == plan_indices(dg_ids(e.spec_datagroups()), ls_registry@, sys)
                &&& tables_match(e.spec_stage_flags(), e.spec_stage_lists(), ls_registry@, sys, 0, STAGE_COUNT as int)
            },
    {
        let ghost dmap = spawn_desc.spec_datagroups();
        let ghost lset = spawn_desc.spec_local_systems();
        let (name, debug_info, data_groups, local_systems, global_systems) = spawn_desc.into_parts();
        let ids = sorted_datagroup_ids(&data_groups);
        proof {
            lemma_sorted_no_duplicates(ids@);
            ids@.unique_seq_to_set();
            assert(ids@.to_set() =~= dmap.dom());
        }
        let (datagroups, transform_index) = create_datagroups(&ids, data_groups, dg_registry, transform_id);
        let sys = sorted_system_ids(&local_systems);
        proof {
            assert forall|i: int| 0 <= i < sys@.len() implies {
                &&& #[trigger] sys@[i] < ls_registry@.len()
                &&& ls_registry@[sys@[i] as int].dependencies@.len() <= u16::MAX
            } by {
                assert(sys@.contains(sys@[i]));
                assert(lset.contains(sys@[i]));
            }
        }
        let (local_systems_indices, ls_stage_enabled_map, stage_map) = build_stage_plan(&datagroups, &sys, ls_registry);
        let e = Entity {
            id,
            self_ptr,
            name,
            debug_info,
            datagroups,
            local_systems_indices,
            local_systems_map: local_systems,
            ls_stage_enabled_map,
            stage_map,
            global_systems,
            transform_index,
        };
        proof {
            assert forall|st: StageID| #[trigger] e.spec_stage_lists().contains_key(st) == e.spec_stage_flags()[st as int] by {
                assert(0 <= st < STAGE_COUNT);
            }
            if ids@.contains(transform_id) {
                let p = ids@.index_of(transform_id);
                assert(0 <= p < ids@.len());
                assert(transform_index as int == p);
            }
            assert(e.wf_stages());
            assert forall|st: StageID| #[trigger] e.spec_stage_lists().contains_key(st)
                implies indices_taken(e.spec_stage_lists()[st]) <= e.spec_indices().len() by {
                assert forall|i: int| 0 <= i < sys@.len() implies {
                    &&& #[trigger] sys@[i] < ls_registry@.len()
                    &&& ls_registry@[sys@[i] as int].dependencies@.len() <= u16::MAX
                    &&& ls_registry@[sys@[i] as int].functions@.len() == STAGE_COUNT
                } by {
                    assert(sys@.contains(sys@[i]));
                    assert(lset.contains(sys@[i]));
                }
                lemma_plan_stage_fits(dg_ids(e.spec_datagroups()), ls_registry@, sys@, st as int);
                assert(e.spec_stage_flags()[st as int]);
            }
            assert(sorted_elements(lset, sys@));
        }
        e
    }
}

/// Total number of datagroup indices taken by the runs of a stage list.
pub open spec fn indices_taken(list: Seq<(DataGroupIndexingType, SystemClassID)>) -> nat
    decreases list.len(),
{
    if list.len() == 0 {
        0
    } else {
        indices_taken(list.drop_last()) + list.last().0 as nat
    }
}

/// One run of a local system in a stage: the system and where its datagroup
/// indices start and how many they are.
#[derive(Debug, Clone, Copy, PartialEq, Eq, Structural)]
pub struct StageRun {
    pub system: SystemClassID,
    pub start: usize,
    pub len: usize,
}

impl<D> Entity<D> {
    #[inline(always)]
    pub fn get_id(&self) -> (r: EntityID)
        ensures
            r == self.spec_id(),
    {
        self.id
    }

    #[inline(always)]
    pub fn get_name(&self) -> (r: &str)
        ensures
            r@ == self.spec_name(),
    {
        self.name.as_str()
    }

    #[inline(always)]
    pub fn get_debug_info(&self) -> (r: &str)
        ensures
            r@ == self.spec_debug_info(),
    {
        self.debug_info.as_str()
    }

    /// The datagroups of this entity, sorted by identifier.
    #[inline(always)]
    pub fn get_datagroups(&self) -> (r: &Vec<D>)
        ensures
            r@ == self.spec_datagroups(),
    {
        &self.datagroups
    }

    /// The datagroup indices of all the system runs, run after run.
    #[inline(always)]
    pub fn get_system_indices(&self) -> (r: &[DataGroupIndexingType])
        ensures
            r@ == self.spec_indices(),
    {
        self.local_systems_indices.as_slice()
    }

    /// The datagroup with identifier `id`, if the entity has one.
    pub fn get_datagroup_by_id(&self, id: DataGroupID) -> (r: Option<&D>) where D: DataGroupMeta
        requires
            self.wf(),
        ensures
            match r {
                Some(d) => dg_ids(self.spec_datagroups()).contains(id)
                    && *d == self.spec_datagroups()[dg_ids(self.spec_datagroups()).index_of(id)],
                None => !dg_ids(self.spec_datagroups()).contains(id),
            },
    {
        match find_datagroup(&self.datagroups, id) {
            Some(p) => {
                proof {
                    lemma_index_of_sorted(dg_ids(self.spec_datagroups()), p as int);
                }
                Some(&self.datagroups[p])
            },
            None => None,
        }
    }

    /// The datagroup of type `L`, if the entity has one.
    #[inline(always)]
    pub fn get_datagroup<L: DataGroupMetadataLocator>(&self) -> (r: Option<&D>) where D: DataGroupMeta
        requires
            self.wf(),
        ensures
            match r {
                Some(d) => dg_ids(self.spec_datagroups()).contains(L::spec_get_id())
                    && *d == self.spec_datagroups()[dg_ids(self.spec_datagroups()).index_of(L::spec_get_id())],
                None => !dg_ids(self.spec_datagroups()).contains(L::spec_get_id()),
            },
    {
        self.get_datagroup_by_id(L::get_id())
    }

    /// Checks if this entity is a spatial entity.
    #[inline(always)]
    pub fn is_spatial_entity(&self) -> (r: bool)
        ensures
            r == (self.spec_transform_index() != INVALID_DATAGROUP_INDEX),
    {
        self.transform_index != INVALID_DATAGROUP_INDEX
    }

    /// The transform datagroup, if this is a spatial entity.
    #[inline(always)]
    pub fn get_transform(&self) -> (r: Option<&D>) where D: DataGroupMeta
        requires
            self.wf(),
        ensures
            match r {
                Some(d) => self.spec_transform_index() != INVALID_DATAGROUP_INDEX
                    && *d == self.spec_datagroups()[self.spec_transform_index() as int],
                None => self.spec_transform_index() == INVALID_DATAGROUP_INDEX,
            },
    {
        if !self.is_spatial_entity() {
            None
        } else {
            Some(&self.datagroups[self.transform_index as usize])
        }
    }

    /// Mark this entity as without transform: it stops being spatial. The
    /// transform datagroup stays among its datagroups.
    pub fn delete_transform(&mut self)
        ensures
            final(self).spec_transform_index() == INVALID_DATAGROUP_INDEX,
            final(self).spec_datagroups() == old(self).spec_datagroups(),
            final(self).spec_stage_flags() == old(self).spec_stage_flags(),
            final(self).spec_stage_lists() == old(self).spec_stage_lists(),
            final(self).spec_indices() == old(self).spec_indices(),
            final(self).spec_id() == old(self).spec_id(),
            final(self).spec_self_ptr() == old(self).spec_self_ptr(),
            final(self).spec_local_systems() == old(self).spec_local_systems(),
            final(self).spec_global_systems() == old(self).spec_global_systems(),
    {
        self.transform_index = INVALID_DATAGROUP_INDEX;
    }

    #[inline(always)]
    pub fn get_local_systems(&self) -> (r: &HashSet<SystemClassID>)
        ensures
            r@ == self.spec_local_systems(),
    {
        &self.local_systems_map
    }

    #[inline(always)]
    pub fn get_global_systems(&self) -> (r: &HashSet<GlobalSystemID>)
        ensures
            r@ == self.spec_global_systems(),
    {
        &self.global_systems
    }

    #[inline(always)]
    pub fn contains_local_system_by_id(&self, id: SystemClassID) -> (r: bool)
        ensures
            r == self.spec_local_systems().contains(id),
    {
        self.local_systems_map.contains(&id)
    }

    #[inline(always)]
    pub fn contains_local_system<L: IDLocator>(&self) -> (r: bool)
        ensures
            r == self.spec_local_systems().contains(L::spec_get_id()),
    {
        self.contains_local_system_by_id(L::get_id())
    }

    #[inline(always)]
    pub fn contains_global_system_by_id(&self, id: GlobalSystemID) -> (r: bool)
        ensures
            r == self.spec_global_systems().contains(id),
    {
        self.global_systems.contains(&id)
    }

    #[inline(always)]
    pub fn contains_global_system<L: IDLocator>(&self) -> (r: bool)
        ensures
            r == self.spec_global_systems().contains(L::spec_get_id()),
    {
        self.contains_global_system_by_id(L::get_id())
    }

    #[inline(always)]
    pub fn get_ls_stage_enabled_map(&self) -> (r: &StageEnabledMap)
        ensures
            stage_flags(*r) == self.spec_stage_flags(),
    {
        &self.ls_stage_enabled_map
    }

    /// If a stage is enabled for this entity.
    #[inline(always)]
    pub fn is_stage_enabled(&self, stage_id: StageID) -> (r: bool)
        requires
            self.wf_stages(),
        ensures
            r == self.spec_stage_flags()[stage_id as int],
    {
        stage_flag(&self.ls_stage_enabled_map, stage_id as usize)
    }

    /// Checks if this entity should be scheduled to run in the specified
    /// stage: a non-spatial entity if it has systems for the stage; a spatial
    /// one, whose node in `hierarchy` is `node`, only if it is the root of its
    /// hierarchy and some entity of the hierarchy runs in the stage.
    pub fn should_run_in_stage(&self, stage_id: StageID, hierarchy: &SpatialHierarchy, node: NodeIndex) -> (r: bool)
        requires
            self.wf_stages(),
            hierarchy.wf(),
            self.spec_transform_index() != INVALID_DATAGROUP_INDEX ==> node < hierarchy.len(),
        ensures
            r == if self.spec_transform_index() == INVALID_DATAGROUP_INDEX {
                self.spec_stage_flags()[stage_id as int]
            } else {
                hierarchy.parent_of(node as int) is None && hierarchy.subtree_in_stage(node as int, stage_id as int).len() > 0
            },
    {
        if !self.is_spatial_entity() {
            return self.is_stage_enabled(stage_id);
        }
        hierarchy.should_run_in_stage(node, stage_id)
    }

    /// The runs of a stage, in order: each system of the stage with the
    /// datagroup indices it takes, which for the stage's runs are laid out one
    /// after the other from the first index.
    pub fn stage_runs(&self, stage_id: StageID) -> (r: Vec<StageRun>)
        requires
            self.plan_ok(),
            self.spec_stage_flags()[stage_id as int],
        ensures
            r@.len() == self.spec_stage_lists()[stage_id].len(),
            forall|k: int| 0 <= k < r@.len() ==> {
                let (n, sys) = self.spec_stage_lists()[stage_id][k];
                &&& #[trigger] r@[k].system == sys
                &&& r@[k].len == n
                &&& r@[k].start == indices_taken(self.spec_stage_lists()[stage_id].take(k))
                &&& r@[k].start + r@[k].len <= self.spec_indices().len()
            },
    {
        proof {
            assert(self.spec_stage_lists().contains_key(stage_id));
        }
        let list = match stage_map_get(&self.stage_map, stage_id) {
            Some(l) => l,
            None => {
                return Vec::new();
            },
        };
        let total_len = self.local_systems_indices.len();
        let ghost total = self.spec_indices().len();
        let mut runs: Vec<StageRun> = Vec::new();
        let mut start: usize = 0;
        let mut k: usize = 0;
        proof {
            assert(list@.take(0) =~= Seq::<(DataGroupIndexingType, SystemClassID)>::empty());
        }
        while k < list.len()
            invariant
                k <= list@.len(),
                list@ == self.spec_stage_lists()[stage_id],
                indices_taken(list@) <= total,
                total == self.spec_indices().len(),
                total == total_len,
                start == indices_taken(list@.take(k as int)),
                runs@.len() == k,
                forall|j: int| 0 <= j < k ==> {
                    let (n, sys) = list@[j];
                    &&& #[trigger] runs@[j].system == sys
                    &&& runs@[j].len == n
                    &&& runs@[j].start == indices_taken(list@.take(j))
                    &&& runs@[j].start + runs@[j].len <= total
                },
            decreases list@.len() - k,
        {
            let (n, sys) = list[k];
            proof {
                assert(list@.take(k + 1).drop_last() =~= list@.take(k as int));
                lemma_indices_taken_prefix(list@, k + 1);
                assert(indices_taken(list@.take(k + 1)) == start + n);
            }
            runs.push(StageRun { system: sys, start, len: n as usize });
            start = start + n as usize;
            k = k + 1;
        }
        runs
    }
}

/// The indices taken by a prefix of a stage list are no more than those of
/// the whole list.
proof fn lemma_indices_taken_prefix(list: Seq<(DataGroupIndexingType, SystemClassID)>, k: int)
    requires
        0 <= k <= list.len(),
    ensures
        indices_taken(list.take(k)) <= indices_taken(list),
    decreases list.len(),
{
    if k < list.len() {
        assert(list.drop_last().take(k) =~= list.take(k));
        lemma_indices_taken_prefix(list.drop_last(), k);
    } else {
        assert(list.take(k) =~= list);
    }
}

proof fn lemma_repeated_len<T>(s: Seq<T>, n: nat)
    ensures
        repeated(s, n).len() == n * s.len(),
    decreases n,
{
    if n > 0 {
        let m = (n - 1) as nat;
        lemma_repeated_len(s, m);
        assert(repeated(s, n) == repeated(s, m) + s);
        assert(n * s.len() == m * s.len() + s.len()) by (nonlinear_arith)
            requires
                m == n - 1,
        ;
    } else {
        assert(n * s.len() == 0) by (nonlinear_arith)
            requires
                n == 0,
        ;
    }
}

proof fn lemma_count_stages_positive<F>(fns: Seq<Option<F>>, stage: int)
    requires
        0 <= stage < fns.len(),
        fns[stage] is Some,
    ensures
        count_stages(fns) >= 1,
    decreases fns.len(),
{
    if stage < fns.len() - 1 {
        lemma_count_stages_positive(fns.drop_last(), stage);
    }
}

/// The runs planned for a stage take no more indices than all the runs.
proof fn lemma_plan_stage_fits<F, S>(
    ids: Seq<DataGroupID>,
    registry: Seq<LocalSystemRegistryEntry<F, S>>,
    sys: Seq<SystemClassID>,
    stage: int,
)
    requires
        0 <= stage < STAGE_COUNT,
        forall|i: int| 0 <= i < sys.len() ==> {
            &&& #[trigger] sys[i] < registry.len()
            &&& registry[sys[i] as int].dependencies@.len() <= u16::MAX
            &&& registry[sys[i] as int].functions@.len() == STAGE_COUNT
        },
    ensures
        indices_taken(plan_stage(registry, sys, stage)) <= plan_indices(ids, registry, sys).len(),
    decreases sys.len(),
{
    if sys.len() > 0 {
        let rest = sys.drop_last();
        assert forall|i: int| 0 <= i < rest.len() implies {
            &&& #[trigger] rest[i] < registry.len()
            &&& registry[rest[i] as int].dependencies@.len() <= u16::MAX
            &&& registry[rest[i] as int].functions@.len() == STAGE_COUNT
        } by {
            assert(rest[i] == sys[i]);
        }
        lemma_plan_stage_fits(ids, registry, rest, stage);
        let e = registry[sys.last() as int];
        assert(sys.last() == sys[sys.len() - 1]);
        let slots = dependency_slots(ids, e.dependencies@);
        let n = count_stages(e.functions@);
        lemma_repeated_len(slots, n);
        let a = plan_stage(registry, rest, stage);
        if e.functions@[stage] is Some {
            lemma_count_stages_positive(e.functions@, stage);
            assert(n * slots.len() >= slots.len()) by (nonlinear_arith)
                requires
                    n >= 1,
            ;
            let x = (e.dependencies@.len() as DataGroupIndexingType, sys.last());
            assert((a + seq![x]).drop_last() =~= a);
        } else {
            assert(a + Seq::<(DataGroupIndexingType, SystemClassID)>::empty() =~= a);
        }
    }
}

/// The calls of stage `s` of entity `e`, in order: each system of the stage
/// with the position and number of its datagroup indices, as `stage_runs`
/// lays them out; none when the stage is not enabled.
pub open spec fn stage_calls<D>(e: Entity<D>, s: StageID) -> Seq<(SystemClassID, int, int)> {
    if e.spec_stage_flags()[s as int] {
        let list = e.spec_stage_lists()[s];
        Seq::new(list.len(), |k: int| (list[k].1, indices_taken(list.take(k)) as int, list[k].0 as int))
    } else {
        Seq::empty()
    }
}

/// The function of each call of stage `s` of entity `e`, in order, as
/// `registry` holds it.
pub open spec fn stage_functions<D, F, G>(registry: Seq<LocalSystemRegistryEntry<F, G>>, e: Entity<D>, s: StageID) -> Seq<F> {
    let calls = stage_calls(e, s);
    Seq::new(calls.len(), |j: int| registry[calls[j].0 as int].functions@[s as int]->0)
}

/// The datagroup indices that each call of stage `s` of entity `e` receives,
/// in order.
pub open spec fn stage_call_indices<D>(e: Entity<D>, s: StageID) -> Seq<Seq<DataGroupIndexingType>> {
    let calls = stage_calls(e, s);
    Seq::new(calls.len(), |j: int| e.spec_indices().subrange(calls[j].1, calls[j].1 + calls[j].2))
}

/// The calls of stage `s` of entity `e`, in order, each as the function
/// that `registry` holds for its system and the datagroup indices it
/// receives.
pub open spec fn stage_round<D, F, G>(registry: Seq<LocalSystemRegistryEntry<F, G>>, e: Entity<D>, s: StageID) -> Seq<(F, Seq<DataGroupIndexingType>)> {
    let fns = stage_functions(registry, e, s);
    let ixs = stage_call_indices(e, s);
    Seq::new(fns.len(), |j: int| (fns[j], ixs[j]))
}

/// `n` rounds of the calls `cs`, one after the other.
pub open spec fn repeat_calls<F>(cs: Seq<(F, Seq<DataGroupIndexingType>)>, n: nat) -> Seq<(F, Seq<DataGroupIndexingType>)>
    decreases n,
{
    if n == 0 {
        Seq::empty()
    } else {
        repeat_calls(cs, (n - 1) as nat) + cs
    }
}

/// `a` rounds and then `b` rounds are `a + b` rounds.
pub proof fn lemma_repeat_calls_add<F>(cs: Seq<(F, Seq<DataGroupIndexingType>)>, a: nat, b: nat)
    ensures
        repeat_calls(cs, a) + repeat_calls(cs, b) == repeat_calls(cs, a + b),
    decreases b,
{
    if b == 0 {
        assert(repeat_calls(cs, a) + Seq::<(F, Seq<DataGroupIndexingType>)>::empty() =~= repeat_calls(cs, a));
    } else {
        lemma_repeat_calls_add(cs, a, (b - 1) as nat);
        assert(repeat_calls(cs, a) + (repeat_calls(cs, (b - 1) as nat) + cs) =~= (repeat_calls(cs, a) + repeat_calls(cs, (b - 1) as nat)) + cs);
        assert((a + b - 1) as nat == a + (b - 1) as nat);
    }
}

/// Two calls chains, the second starting where the first ends, make one:
/// the calls `cs1` take the datagroups from `a` to `b` and the calls `cs2`
/// from `b` to `c`, so the calls `cs1 + cs2` take them from `a` to `c`. A
/// chain of calls is a sequence of index slices and datagroup references,
/// one per call, each call allowed by its function's `call_ensures`, each
/// reference starting where the one before it ends.
pub proof fn lemma_chain_concat<W, D, F>(
    cs1: Seq<(F, Seq<DataGroupIndexingType>)>,
    cs2: Seq<(F, Seq<DataGroupIndexingType>)>,
    ctx: &W,
    id: EntityID,
    a: Seq<D>,
    b: Seq<D>,
    c: Seq<D>,
)
    where F: Fn(&W, EntityID, &[DataGroupIndexingType], &mut Vec<D>)
    requires
        (exists|cl: Seq<(&[DataGroupIndexingType], &mut Vec<D>)>| #![trigger cl.len()] {
            &&& cl.len() == (cs1).len()
            &&& (cs1).len() == 0 ==> b =~= a
            &&& (cs1).len() > 0 ==> mut_ref_current(cl[0].1)@ =~= a && mut_ref_future(cl[(cs1).len() - 1].1)@ =~= b
            &&& forall|j: int| #![trigger cl[j]] 0 <= j < (cs1).len() ==> (cl[j].0)@ === (cs1)[j].1 && call_ensures((cs1)[j].0, (ctx, id, cl[j].0, cl[j].1), ())
            &&& forall|j: int| 0 <= j < (cs1).len() - 1 ==> mut_ref_future(#[trigger] cl[j].1)@ =~= mut_ref_current(cl[j + 1].1)@
        }),
        (exists|cl: Seq<(&[DataGroupIndexingType], &mut Vec<D>)>| #![trigger cl.len()] {
            &&& cl.len() == (cs2).len()
            &&& (cs2).len() == 0 ==> c =~= b
            &&& (cs2).len() > 0 ==> mut_ref_current(cl[0].1)@ =~= b && mut_ref_future(cl[(cs2).len() - 1].1)@ =~= c
            &&& forall|j: int| #![trigger cl[j]] 0 <= j < (cs2).len() ==> (cl[j].0)@ === (cs2)[j].1 && call_ensures((cs2)[j].0, (ctx, id, cl[j].0, cl[j].1), ())
            &&& forall|j: int| 0 <= j < (cs2).len() - 1 ==> mut_ref_future(#[trigger] cl[j].1)@ =~= mut_ref_current(cl[j + 1].1)@
        }),
    ensures
        (exists|cl: Seq<(&[DataGroupIndexingType], &mut Vec<D>)>| #![trigger cl.len()] {
            &&& cl.len() == (cs1 + cs2).len()
            &&& (cs1 + cs2).len() == 0 ==> c =~= a
            &&& (cs1 + cs2).len() > 0 ==> mut_ref_current(cl[0].1)@ =~= a && mut_ref_future(cl[(cs1 + cs2).len() - 1].1)@ =~= c
            &&& forall|j: int| #![trigger cl[j]] 0 <= j < (cs1 + cs2).len() ==> (cl[j].0)@ === (cs1 + cs2)[j].1 && call_ensures((cs1 + cs2)[j].0, (ctx, id, cl[j].0, cl[j].1), ())
            &&& forall|j: int| 0 <= j < (cs1 + cs2).len() - 1 ==> mut_ref_future(#[trigger] cl[j].1)@ =~= mut_ref_current(cl[j + 1].1)@
        }),
{
    let cl1 = choose|cl: Seq<(&[DataGroupIndexingType], &mut Vec<D>)>| #![trigger cl.len()] {
        &&& cl.len() == (cs1).len()
        &&& (cs1).len() == 0 ==> b =~= a
        &&& (cs1).len() > 0 ==> mut_ref_current(cl[0].1)@ =~= a && mut_ref_future(cl[(cs1).len() - 1].1)@ =~= b
        &&& forall|j: int| #![trigger cl[j]] 0 <= j < (cs1).len() ==> (cl[j].0)@ === (cs1)[j].1 && call_ensures((cs1)[j].0, (ctx, id, cl[j].0, cl[j].1), ())
        &&& forall|j: int| 0 <= j < (cs1).len() - 1 ==> mut_ref_future(#[trigger] cl[j].1)@ =~= mut_ref_current(cl[j + 1].1)@
    };
    let cl2 = choose|cl: Seq<(&[DataGroupIndexingType], &mut Vec<D>)>| #![trigger cl.len()] {
        &&& cl.len() == (cs2).len()
        &&& (cs2).len() == 0 ==> c =~= b
        &&& (cs2).len() > 0 ==> mut_ref_current(cl[0].1)@ =~= b && mut_ref_future(cl[(cs2).len() - 1].1)@ =~= c
        &&& forall|j: int| #![trigger cl[j]] 0 <= j < (cs2).len() ==> (cl[j].0)@ === (cs2)[j].1 && call_ensures((cs2)[j].0, (ctx, id, cl[j].0, cl[j].1), ())
        &&& forall|j: int| 0 <= j < (cs2).len() - 1 ==> mut_ref_future(#[trigger] cl[j].1)@ =~= mut_ref_current(cl[j + 1].1)@
    };
    let cl = cl1 + cl2;
    let cs = cs1 + cs2;
    assert forall|j: int| 0 <= j < cs.len() implies (cl[j].0)@ === cs[j].1 && call_ensures(cs[j].0, (ctx, id, cl[j].0, cl[j].1), ()) by {
        if j < cs1.len() {
            assert(cl[j] == cl1[j] && cs[j] == cs1[j]);
        } else {
            assert(cl[j] == cl2[j - cs1.len()] && cs[j] == cs2[j - cs1.len()]);
        }
    }
    assert forall|j: int| 0 <= j < cs.len() - 1 implies mut_ref_future(#[trigger] cl[j].1)@ =~= mut_ref_current(cl[j + 1].1)@ by {
        if j < cs1.len() - 1 {
            assert(cl[j] == cl1[j] && cl[j + 1] == cl1[j + 1]);
        } else if j == cs1.len() - 1 {
            assert(cl[j] == cl1[j] && cl[j + 1] == cl2[0]);
        } else {
            assert(cl[j] == cl2[j - cs1.len()] && cl[j + 1] == cl2[j + 1 - cs1.len()]);
        }
    }
    if cs.len() > 0 {
        if cs1.len() > 0 {
            assert(cl[0] == cl1[0]);
        } else {
            assert(cl[0] == cl2[0]);
        }
        if cs2.len() > 0 {
            assert(cl[cs.len() - 1] == cl2[cs2.len() - 1]);
        } else {
            assert(cl[cs.len() - 1] == cl1[cs1.len() - 1]);
        }
    }
    assert(cl.len() == cs.len());
}

/// No calls leave the datagroups as they are.
pub proof fn lemma_chain_empty<W, D, F>(ctx: &W, id: EntityID, a: Seq<D>)
    where F: Fn(&W, EntityID, &[DataGroupIndexingType], &mut Vec<D>)
    ensures
        (exists|cl: Seq<(&[DataGroupIndexingType], &mut Vec<D>)>| #![trigger cl.len()] {
            &&& cl.len() == (Seq::<(F, Seq<DataGroupIndexingType>)>::empty()).len()
            &&& (Seq::<(F, Seq<DataGroupIndexingType>)>::empty()).len() == 0 ==> a =~= a
            &&& (Seq::<(F, Seq<DataGroupIndexingType>)>::empty()).len() > 0 ==> mut_ref_current(cl[0].1)@ =~= a && mut_ref_future(cl[(Seq::<(F, Seq<DataGroupIndexingType>)>::empty()).len() - 1].1)@ =~= a
            &&& forall|j: int| #![trigger cl[j]] 0 <= j < (Seq::<(F, Seq<DataGroupIndexingType>)>::empty()).len() ==> (cl[j].0)@ === (Seq::<(F, Seq<DataGroupIndexingType>)>::empty())[j].1 && call_ensures((Seq::<(F, Seq<DataGroupIndexingType>)>::empty())[j].0, (ctx, id, cl[j].0, cl[j].1), ())
            &&& forall|j: int| 0 <= j < (Seq::<(F, Seq<DataGroupIndexingType>)>::empty()).len() - 1 ==> mut_ref_future(#[trigger] cl[j].1)@ =~= mut_ref_current(cl[j + 1].1)@
        }),
{
    let cl = Seq::<(&[DataGroupIndexingType], &mut Vec<D>)>::empty();
    assert(cl.len() == 0);
}

impl<D> Entity<D> {
    /// The datagroup with identifier `id`, for writing, if the entity has one.
    pub fn get_datagroup_by_id_mut(&mut self, id: DataGroupID) -> (r: Option<&mut D>) where D: DataGroupMeta
        requires
            old(self).wf(),
        ensures
            match r {
                Some(d) => {
                    let p = dg_ids(old(self).spec_datagroups()).index_of(id);
                    &&& dg_ids(old(self).spec_datagroups()).contains(id)
                    &&& *d == old(self).spec_datagroups()[p]
                    &&& final(self).spec_datagroups() == old(self).spec_datagroups().update(p, *final(d))
                },
                None => !dg_ids(old(self).spec_datagroups()).contains(id) && final(self).spec_datagroups()
                    == old(self).spec_datagroups(),
            },
            final(self).spec_transform_index() == old(self).spec_transform_index(),
            final(self).spec_indices() == old(self).spec_indices(),
            final(self).spec_stage_flags() == old(self).spec_stage_flags(),
            final(self).spec_stage_lists() == old(self).spec_stage_lists(),
            final(self).spec_id() == old(self).spec_id(),
            final(self).spec_local_systems() == old(self).spec_local_systems(),
            final(self).spec_global_systems() == old(self).spec_global_systems(),
    {
        match find_datagroup(&self.datagroups, id) {
            Some(p) => {
                proof {
                    lemma_index_of_sorted(dg_ids(old(self).spec_datagroups()), p as int);
                }
                Some(&mut self.datagroups[p])
            },
            None => None,
        }
    }
}

impl<D> Entity<D> {
    /// The datagroup of type `L`, for writing, if the entity has one.
    #[inline(always)]
    pub fn get_datagroup_mut<L: DataGroupMetadataLocator>(&mut self) -> (r: Option<&mut D>) where D: DataGroupMeta
        requires
            old(self).wf(),
        ensures
            match r {
                Some(d) => {
                    let p = dg_ids(old(self).spec_datagroups()).index_of(L::spec_get_id());
                    &&& dg_ids(old(self).spec_datagroups()).contains(L::spec_get_id())
                    &&& *d == old(self).spec_datagroups()[p]
                    &&& final(self).spec_datagroups() == old(self).spec_datagroups().update(p, *final(d))
                },
                None => !dg_ids(old(self).spec_datagroups()).contains(L::spec_get_id())
                    && final(self).spec_datagroups() == old(self).spec_datagroups(),
            },
            final(self).spec_transform_index() == old(self).spec_transform_index(),
            final(self).spec_indices() == old(self).spec_indices(),
            final(self).spec_stage_flags() == old(self).spec_stage_flags(),
            final(self).spec_stage_lists() == old(self).spec_stage_lists(),
            final(self).spec_id() == old(self).spec_id(),
            final(self).spec_local_systems() == old(self).spec_local_systems(),
            final(self).spec_global_systems() == old(self).spec_global_systems(),
    {
        self.get_datagroup_by_id_mut(L::get_id())
    }

    /// Runs a stage: calls, in order, the function of each local system of
    /// the stage, with the world, the entity's identifier, the system's
    /// datagroup indices (as `stage_runs` lays them out, as many as the
    /// system declares) and the datagroups. The calls make a chain from the
    /// old datagroups to the new ones, each call allowed by its function;
    /// nothing else changes.
    #[verifier::spinoff_prover]
    pub fn run_stage<W, F, G>(&mut self, registry: &LocalSystemRegistry<F, G>, world: &W, stage_id: StageID)
        where F: Fn(&W, EntityID, &[DataGroupIndexingType], &mut Vec<D>)
        requires
            old(self).plan_ok(),
            old(self).spec_stage_flags()[stage_id as int],
            old(self).systems_can_run(registry, world, stage_id),
        ensures
            final(self).spec_transform_index() == old(self).spec_transform_index(),
            final(self).spec_indices() == old(self).spec_indices(),
            final(self).spec_stage_flags() == old(self).spec_stage_flags(),
            final(self).spec_stage_lists() == old(self).spec_stage_lists(),
            final(self).spec_id() == old(self).spec_id(),
            final(self).spec_self_ptr() == old(self).spec_self_ptr(),
            final(self).spec_name() == old(self).spec_name(),
            final(self).spec_local_systems() == old(self).spec_local_systems(),
            final(self).spec_global_systems() == old(self).spec_global_systems(),
            final(self).plan_ok(),
            same_but_datagroups(*old(self), *final(self)),
            forall|j: int| 0 <= j < stage_calls(*old(self), stage_id).len()
                ==> (#[trigger] stage_call_indices(*old(self), stage_id)[j]).len() == stage_calls(*old(self), stage_id)[j].2,
            (exists|cl: Seq<(&[DataGroupIndexingType], &mut Vec<D>)>| #![trigger cl.len()] {
                &&& cl.len() == (stage_round(registry@, *old(self), stage_id)).len()
                &&& (stage_round(registry@, *old(self), stage_id)).len() == 0 ==> final(self).spec_datagroups() =~= old(self).spec_datagroups()
                &&& (stage_round(registry@, *old(self), stage_id)).len() > 0 ==> mut_ref_current(cl[0].1)@ =~= old(self).spec_datagroups() && mut_ref_future(cl[(stage_round(registry@, *old(self), stage_id)).len() - 1].1)@ =~= final(self).spec_datagroups()
                &&& forall|j: int| #![trigger cl[j]] 0 <= j < (stage_round(registry@, *old(self), stage_id)).len() ==> (cl[j].0)@ === (stage_round(registry@, *old(self), stage_id))[j].1 && call_ensures((stage_round(registry@, *old(self), stage_id))[j].0, (world, old(self).spec_id(), cl[j].0, cl[j].1), ())
                &&& forall|j: int| 0 <= j < (stage_round(registry@, *old(self), stage_id)).len() - 1 ==> mut_ref_future(#[trigger] cl[j].1)@ =~= mut_ref_current(cl[j + 1].1)@
            }),
    {
        let ghost calls = stage_calls(*old(self), stage_id);
        let ghost fns = stage_functions(registry@, *old(self), stage_id);
        let ghost ixs = stage_call_indices(*old(self), stage_id);
        let ghost round = stage_round(registry@, *old(self), stage_id);
        let ghost id = old(self).spec_id();
        let runs = self.stage_runs(stage_id);
        let total = self.local_systems_indices.len();
        proof {
            let list = old(self).spec_stage_lists()[stage_id];
            assert forall|j: int| 0 <= j < runs@.len() implies {
                &&& #[trigger] runs@[j].system < registry@.len()
                &&& registry@[runs@[j].system as int].functions@[stage_id as int] is Some
                &&& registry@[runs@[j].system as int].functions@[stage_id as int]->0 == fns[j]
                &&& runs@[j].start + runs@[j].len <= total
                &&& runs@[j].len == calls[j].2
                &&& old(self).spec_indices().subrange(runs@[j].start as int, runs@[j].start + runs@[j].len) == ixs[j]
            } by {
                assert(runs@[j].system == list[j].1);
                assert(list[j].1 == old(self).spec_stage_lists()[stage_id][j].1);
            }
            lemma_chain_empty::<W, D, F>(world, id, old(self).spec_datagroups());
            assert(round.take(0) =~= Seq::<(F, Seq<DataGroupIndexingType>)>::empty());
        }
        let mut k: usize = 0;
        while k < runs.len()
            invariant
                k <= runs@.len(),
                runs@.len() == calls.len(),
                fns.len() == calls.len(),
                ixs.len() == calls.len(),
                round.len() == calls.len(),
                total == self.spec_indices().len(),
                forall|j: int| 0 <= j < runs@.len() ==> {
                    &&& #[trigger] runs@[j].system < registry@.len()
                    &&& registry@[runs@[j].system as int].functions@[stage_id as int] is Some
                    &&& registry@[runs@[j].system as int].functions@[stage_id as int]->0 == fns[j]
                    &&& runs@[j].start + runs@[j].len <= total
                    &&& runs@[j].len == calls[j].2
                    &&& old(self).spec_indices().subrange(runs@[j].start as int, runs@[j].start + runs@[j].len) == ixs[j]
                },
                old(self).systems_can_run(registry, world, stage_id),
                old(self).spec_stage_flags()[stage_id as int],
                calls == stage_calls(*old(self), stage_id),
                fns == stage_functions(registry@, *old(self), stage_id),
                ixs == stage_call_indices(*old(self), stage_id),
                round == stage_round(registry@, *old(self), stage_id),
                id == old(self).spec_id(),
                same_but_datagroups(*old(self), *self),
                self.spec_local_systems() == old(self).spec_local_systems(),
                self.spec_global_systems() == old(self).spec_global_systems(),
                (exists|cl: Seq<(&[DataGroupIndexingType], &mut Vec<D>)>| #![trigger cl.len()] {
                    &&& cl.len() == (stage_round(registry@, *old(self), stage_id).take(k as int)).len()
                    &&& (stage_round(registry@, *old(self), stage_id).take(k as int)).len() == 0 ==> self.spec_datagroups() =~= old(self).spec_datagroups()
                    &&& (stage_round(registry@, *old(self), stage_id).take(k as int)).len() > 0 ==> mut_ref_current(cl[0].1)@ =~= old(self).spec_datagroups() && mut_ref_future(cl[(stage_round(registry@, *old(self), stage_id).take(k as int)).len() - 1].1)@ =~= self.spec_datagroups()
                    &&& forall|j: int| #![trigger cl[j]] 0 <= j < (stage_round(registry@, *old(self), stage_id).take(k as int)).len() ==> (cl[j].0)@ === (stage_round(registry@, *old(self), stage_id).take(k as int))[j].1 && call_ensures((stage_round(registry@, *old(self), stage_id).take(k as int))[j].0, (world, id, cl[j].0, cl[j].1), ())
                    &&& forall|j: int| 0 <= j < (stage_round(registry@, *old(self), stage_id).take(k as int)).len() - 1 ==> mut_ref_future(#[trigger] cl[j].1)@ =~= mut_ref_current(cl[j + 1].1)@
                }),
            decreases runs@.len() - k,
        {
            let run = runs[k];
            let ghost before = self.datagroups@;
            let entry = registry.get_entry_by_id(run.system);
            match &entry.functions[stage_id as usize] {
                Some(f) => {
                    let ix = vstd::slice::slice_subrange(
                        self.local_systems_indices.as_slice(),
                        run.start,
                        run.start + run.len,
                    );
                    proof {
                        let list = old(self).spec_stage_lists()[stage_id];
                        assert(list[k as int].1 == old(self).spec_stage_lists()[stage_id][k as int].1);
                        assert(fns[k as int] == registry@[calls[k as int].0 as int].functions@[stage_id as int]->0);
                        assert(*f == fns[k as int]);
                        assert(self.id == id);
                        assert(ix@ == ixs[k as int]);
                    }
                    f(world, self.id, ix, &mut self.datagroups);
                    proof {
                        assert(exists|d: &mut Vec<D>| mut_ref_current(d)@ == before && mut_ref_future(d)@ == self.datagroups@
                            && #[trigger] call_ensures(fns[k as int], (world, id, ix, d), ()));
                        let d = choose|d: &mut Vec<D>| mut_ref_current(d)@ == before && mut_ref_future(d)@ == self.datagroups@
                            && #[trigger] call_ensures(fns[k as int], (world, id, ix, d), ());
                        let one = seq![round[k as int]];
                        let cl = seq![(ix, d)];
                        assert(round[k as int] == (fns[k as int], ixs[k as int]));
                        assert(cl[0] == (ix, d));
                        assert(one[0] == round[k as int]);
                        assert({
    &&& cl.len() == (one).len()
    &&& (one).len() == 0 ==> self.datagroups@ =~= before
    &&& (one).len() > 0 ==> mut_ref_current(cl[0].1)@ =~= before && mut_ref_future(cl[(one).len() - 1].1)@ =~= self.datagroups@
    &&& forall|j: int| #![trigger cl[j]] 0 <= j < (one).len() ==> (cl[j].0)@ === (one)[j].1 && call_ensures((one)[j].0, (world, id, cl[j].0, cl[j].1), ())
    &&& forall|j: int| 0 <= j < (one).len() - 1 ==> mut_ref_future(#[trigger] cl[j].1)@ =~= mut_ref_current(cl[j + 1].1)@
});
                        lemma_chain_concat(round.take(k as int), one, world, id, old(self).spec_datagroups(), before, self.datagroups@);
                        assert(round.take(k as int) + one =~= round.take(k + 1));
                    }
                },
                None => {
                    proof {
                        assert(false);
                    }
                },
            }
            k = k + 1;
        }
        proof {
            assert(round.take(k as int) =~= round);
            assert forall|j: int| 0 <= j < calls.len() implies (#[trigger] ixs[j]).len() == calls[j].2 by {
                assert(runs@[j].system < registry@.len());
                assert(runs@[j].start + runs@[j].len <= total);
                assert(self.spec_indices() == old(self).spec_indices());
            }
        }
    }
}

} // verus!
