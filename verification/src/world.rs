//! A world: the entities that live together, stored in an entity allocator,
//! the spatial hierarchy of its spatial entities, the lists of entities to
//! run per stage, and how many entities require each global system.
use crate::data_group::{DataGroup, DataGroupID, DataGroupMeta, DataGroupRegistry};
use crate::entity::{
    datagroups_can_be_created, dg_ids, local_systems_can_run, same_but_datagroups, slot_of,
    sorted_elements, sorted_system_ids, stage_call_indices, stage_calls, stage_functions, stage_round,
    repeat_calls, lemma_chain_concat, lemma_chain_empty, lemma_repeat_calls_add,
    DataGroupIndexingType, Entity, EntityID,
    INVALID_DATAGROUP_INDEX,
};
use crate::stage_tables::stage_flags;
use std::collections::HashSet;
use vstd::std_specs::iter::IteratorSpec;
use crate::entity_allocator::{EntityAllocator, EntityPtr};
use crate::entity_spawn_desc::{EntitySpawnDescription, GlobalSystemID};
use crate::free_queue::{drain_ids, id_queue_contents, id_queue_new, id_queue_push};
use crate::hierarchy::{NodeIndex, SpatialHierarchy};
use crate::global_system_stages::{law_stages_list_loaded_systems_in_order, GlobalSystemStages};
use crate::local_systems::{LocalSystemRegistry, StageID, STAGE_COUNT};
use scc::Queue;
use std::collections::HashMap;
use vstd::prelude::*;

verus! {

broadcast use vstd::std_specs::hash::group_hash_axioms;

/// World Identifier in the Entity System.
pub type WorldID = u16;

/// When a global system of a world is loaded.
#[derive(Clone, Copy, Debug, PartialEq, Eq, Structural)]
pub enum GlobalSystemLifetime {
    /// Loaded at the world's first processing of global system commands, and
    /// never unloaded.
    AlwaysLive,
    /// Loaded while some entity of the world requires it.
    WhenRequired,
    /// Loaded and unloaded on request.
    Manual,
}

/// The entities of a world and the bookkeeping that schedules them.
pub struct World<D> {
    id: WorldID,
    entities: HashMap<EntityID, EntityPtr>,
    allocator: EntityAllocator<Entity<D>>,
    hierarchy: SpatialHierarchy,
    node_of: HashMap<EntityID, NodeIndex>,
    entity_of_node: Vec<EntityID>,
    entities_all: Vec<EntityPtr>,
    entities_stages: Vec<Vec<EntityPtr>>,
    global_systems_count: Vec<usize>,
    global_systems_loaded: Vec<bool>,
    gs_creation_queue: Queue<u32>,
    gs_deletion_queue: Queue<u32>,
    gs_entity_map: Vec<Vec<EntityPtr>>,
    gs_lifetimes: Vec<GlobalSystemLifetime>,
}

/// `v` without any occurrence of `x`.
pub open spec fn without(v: Seq<EntityPtr>, x: EntityPtr) -> Seq<EntityPtr> {
    v.filter(|y: EntityPtr| y != x)
}

/// Filtering by `p` and then dropping `x` keeps what `r` keeps, when `r`
/// holds exactly of what `p` keeps other than `x`.
proof fn lemma_filter_without(v: Seq<EntityPtr>, p: spec_fn(EntityPtr) -> bool, x: EntityPtr, r: spec_fn(EntityPtr) -> bool)
    requires
        forall|y: EntityPtr| #[trigger] r(y) == (p(y) && y != x),
    ensures
        without(v.filter(p), x) == v.filter(r),
    decreases v.len(),
{
    broadcast use Seq::lemma_filter_push;
    if v.len() > 0 {
        let w = v.drop_last();
        lemma_filter_without(w, p, x, r);
        assert(v == w.push(v.last()));
        assert(r(v.last()) == (p(v.last()) && v.last() != x));
    } else {
        assert(v.filter(p) =~= Seq::<EntityPtr>::empty()) by {
            reveal(Seq::filter);
        }
        assert(v.filter(r) =~= Seq::<EntityPtr>::empty()) by {
            reveal(Seq::filter);
        }
        assert(without(Seq::<EntityPtr>::empty(), x) =~= Seq::<EntityPtr>::empty()) by {
            reveal(Seq::filter);
        }
    }
}

/// A filter that keeps every element gives the sequence back.
proof fn lemma_filter_keeps_every(v: Seq<EntityPtr>, p: spec_fn(EntityPtr) -> bool)
    requires
        forall|i: int| 0 <= i < v.len() ==> p(#[trigger] v[i]),
    ensures
        v.filter(p) == v,
    decreases v.len(),
{
    broadcast use Seq::lemma_filter_push;
    if v.len() > 0 {
        let w = v.drop_last();
        assert forall|i: int| 0 <= i < w.len() implies p(#[trigger] w[i]) by {
            assert(w[i] == v[i]);
        }
        lemma_filter_keeps_every(w, p);
        assert(v == w.push(v.last()));
    } else {
        assert(v.filter(p) =~= v) by {
            reveal(Seq::filter);
        }
    }
}

/// Remove every occurrence of `x` from `v`, keeping the order of the rest.
fn remove_all(v: &mut Vec<EntityPtr>, x: EntityPtr)
    ensures
        final(v)@ == without(old(v)@, x),
{
    let mut r: Vec<EntityPtr> = Vec::new();
    let mut i: usize = 0;
    while i < v.len()
        invariant
            i <= v@.len(),
            v@ == old(v)@,
            r@ == without(v@.take(i as int), x),
        decreases v@.len() - i,
    {
        let y = v[i];
        proof {
            assert(v@.take(i + 1).drop_last() =~= v@.take(i as int));
            reveal_with_fuel(Seq::filter, 1);
        }
        if y != x {
            r.push(y);
        }
        i = i + 1;
    }
    proof {
        assert(v@.take(i as int) =~= v@);
    }
    *v = r;
}

impl<D: DataGroupMeta> World<D> {
    pub closed spec fn spec_id(&self) -> WorldID {
        self.id
    }

    /// The live entities of the world, by identifier.
    pub closed spec fn spec_entities(&self) -> Map<EntityID, EntityPtr> {
        self.entities@
    }

    pub closed spec fn spec_allocator(&self) -> EntityAllocator<Entity<D>> {
        self.allocator
    }

    pub closed spec fn spec_hierarchy(&self) -> SpatialHierarchy {
        self.hierarchy
    }

    /// The node of each spatial entity in the hierarchy.
    pub closed spec fn spec_node_of(&self) -> Map<EntityID, NodeIndex> {
        self.node_of@
    }

    /// The entity of each node of the hierarchy.
    pub closed spec fn spec_entity_of_node(&self) -> Seq<EntityID> {
        self.entity_of_node@
    }

    /// Every entity of the world, in the order they were created.
    pub closed spec fn spec_entities_all(&self) -> Seq<EntityPtr> {
        self.entities_all@
    }

    /// The entities to run in each stage.
    pub closed spec fn spec_stage_entities(&self, s: int) -> Seq<EntityPtr> {
        self.entities_stages@[s]@
    }

    /// How many entities require each global system.
    pub closed spec fn spec_gs_count(&self) -> Seq<usize> {
        self.global_systems_count@
    }

    /// Which global systems are loaded.
    pub closed spec fn spec_gs_loaded(&self) -> Seq<bool> {
        self.global_systems_loaded@
    }

    /// The lifetime of each global system.
    pub closed spec fn spec_gs_lifetimes(&self) -> Seq<GlobalSystemLifetime> {
        self.gs_lifetimes@
    }

    /// Global systems waiting to be loaded, oldest first.
    pub closed spec fn spec_gs_creation_queue(&self) -> Seq<u32> {
        id_queue_contents(self.gs_creation_queue)
    }

    /// Global systems waiting to be unloaded, oldest first.
    pub closed spec fn spec_gs_deletion_queue(&self) -> Seq<u32> {
        id_queue_contents(self.gs_deletion_queue)
    }

    /// The entities that require each global system.
    pub closed spec fn spec_gs_entities(&self, g: int) -> Seq<EntityPtr> {
        self.gs_entity_map@[g]@
    }

    /// Number of global systems known to the world.
    pub closed spec fn spec_gs_len(&self) -> nat {
        self.global_systems_count@.len()
    }

    /// The entity with identifier `id`.
    pub open spec fn entity(&self, id: EntityID) -> Entity<D> {
        self.spec_allocator()@[self.spec_entities()[id]]->0
    }

    /// The entities of the world that require global system `g`.
    pub open spec fn users(&self, g: GlobalSystemID) -> Set<EntityID> {
        self.spec_entities().dom().filter(|e: EntityID| self.entity(e).spec_global_systems().contains(g))
    }

    /// Global system `g` is where its lifetime puts it, or queued to get
    /// there: an always live one is loaded or queued for loading; one loaded
    /// when required is queued for loading if some entity requires it and it
    /// is not loaded, and for unloading if it is loaded and no entity requires
    /// it; a manual one is loaded while some entity requires it.
    pub open spec fn gs_covers(&self, g: GlobalSystemID) -> bool {
        match self.spec_gs_lifetimes()[g as int] {
            GlobalSystemLifetime::AlwaysLive => !self.spec_gs_loaded()[g as int] ==> self.spec_gs_creation_queue().contains(g),
            GlobalSystemLifetime::WhenRequired => {
                &&& (self.spec_gs_count()[g as int] > 0 && !self.spec_gs_loaded()[g as int]) ==> self.spec_gs_creation_queue().contains(g)
                &&& (self.spec_gs_count()[g as int] == 0 && self.spec_gs_loaded()[g as int]) ==> self.spec_gs_deletion_queue().contains(g)
            },
            GlobalSystemLifetime::Manual => self.spec_gs_count()[g as int] > 0 ==> self.spec_gs_loaded()[g as int],
        }
    }

    /// The command queues cover every global system whose loaded flag
    /// disagrees with whether some entity requires it.
    pub open spec fn gs_covered(&self) -> bool {
        forall|g: GlobalSystemID| g < self.spec_gs_len() ==> #[trigger] self.gs_covers(g)
    }

    /// `t` holds the stage lists of this world's global systems: one entry
    /// per global system, loaded exactly where this world has it loaded.
    pub open spec fn stages_agree(&self, t: GlobalSystemStages) -> bool {
        &&& t.wf()
        &&& t.spec_len() == self.spec_gs_len()
        &&& forall|g: GlobalSystemID| g < self.spec_gs_len() ==> #[trigger] t.is_loaded(g as int) == self.spec_gs_loaded()[g as int]
    }

    /// Well formed: every entity of the map is stored, initialized, under its
    /// own identifier and pointer; a spatial entity, and only one, has a node
    /// in the hierarchy that names it back; the per-global-system tables have
    /// one entry per global system, every entity's global systems are among
    /// them, and each global system counts exactly the entities that require
    /// it.
    pub open spec fn wf(&self) -> bool {
        &&& self.spec_allocator().wf()
        &&& self.spec_hierarchy().wf()
        &&& self.spec_entity_of_node().len() == self.spec_hierarchy().len()
        &&& self.stage_tables_ok()
        &&& forall|id: EntityID| #[trigger] self.spec_entities().contains_key(id) ==> self.entity_ok(id)
        &&& forall|id: EntityID| #[trigger] self.spec_node_of().contains_key(id) ==> self.spec_entities().contains_key(id)
        &&& forall|g: GlobalSystemID| g < self.spec_gs_len() ==> #[trigger] self.spec_gs_count()[g as int] == self.users(g).len()
    }

    pub open spec fn entity_ok(&self, id: EntityID) -> bool {
        let p = self.spec_entities()[id];
        &&& self.spec_allocator()@.contains_key(p)
        &&& self.spec_allocator()@[p] is Some
        &&& self.entity(id).spec_id() == id
        &&& self.entity(id).spec_self_ptr() == p
        &&& self.entity(id).plan_ok()
        &&& (self.entity(id).spec_transform_index() != INVALID_DATAGROUP_INDEX) == self.spec_node_of().contains_key(id)
        &&& self.spec_node_of().contains_key(id) ==> {
            &&& self.spec_node_of()[id] < self.spec_hierarchy().len()
            &&& self.spec_entity_of_node()[self.spec_node_of()[id] as int] == id
        }
        &&& forall|g: GlobalSystemID| #[trigger] self.entity(id).spec_global_systems().contains(g) ==> g < self.spec_gs_len()
    }

    /// The per-stage and per-global-system tables have their sizes.
    pub closed spec fn stage_tables_ok(&self) -> bool {
        &&& self.entities_stages@.len() == STAGE_COUNT
        &&& self.global_systems_loaded@.len() == self.global_systems_count@.len()
        &&& self.gs_entity_map@.len() == self.global_systems_count@.len()
        &&& self.gs_lifetimes@.len() == self.global_systems_count@.len()
    }
}

/// Push `x` at the end of row `i` of `rows`.
fn push_to_row(rows: &mut Vec<Vec<EntityPtr>>, i: usize, x: EntityPtr)
    requires
        i < old(rows)@.len(),
    ensures
        final(rows)@.len() == old(rows)@.len(),
        final(rows)@[i as int]@ == old(rows)@[i as int]@.push(x),
        forall|j: int| 0 <= j < old(rows)@.len() && j != i ==> #[trigger] final(rows)@[j] == old(rows)@[j],
{
    let mut row: Vec<EntityPtr> = Vec::new();
    std::mem::swap(&mut row, &mut rows[i]);
    row.push(x);
    rows.set(i, row);
}

/// Remove every occurrence of `x` from row `i` of `rows`.
fn remove_from_row(rows: &mut Vec<Vec<EntityPtr>>, i: usize, x: EntityPtr)
    requires
        i < old(rows)@.len(),
    ensures
        final(rows)@.len() == old(rows)@.len(),
        final(rows)@[i as int]@ == without(old(rows)@[i as int]@, x),
        forall|j: int| 0 <= j < old(rows)@.len() && j != i ==> #[trigger] final(rows)@[j] == old(rows)@[j],
{
    let mut row: Vec<EntityPtr> = Vec::new();
    std::mem::swap(&mut row, &mut rows[i]);
    remove_all(&mut row, x);
    rows.set(i, row);
}

impl<D: DataGroupMeta> World<D> {
    /// An empty world that knows the global systems whose lifetimes are
    /// `lifetimes`, none of them loaded, and the always live ones queued for
    /// loading, in increasing identifier order.
    pub fn new(id: WorldID, lifetimes: Vec<GlobalSystemLifetime>) -> (w: Self)
        requires
            lifetimes@.len() <= u32::MAX,
        ensures
            w.wf(),
            w.spec_id() == id,
            w.spec_entities() == Map::<EntityID, EntityPtr>::empty(),
            w.spec_entities_all() == Seq::<EntityPtr>::empty(),
            w.spec_hierarchy().len() == 0,
            w.spec_gs_len() == lifetimes@.len(),
            w.spec_gs_lifetimes() == lifetimes@,
            forall|g: int| 0 <= g < lifetimes@.len() ==> #[trigger] w.spec_gs_count()[g] == 0 && !w.spec_gs_loaded()[g]
                && w.spec_gs_entities(g) == Seq::<EntityPtr>::empty(),
            forall|s: int| 0 <= s < STAGE_COUNT ==> #[trigger] w.spec_stage_entities(s) == Seq::<EntityPtr>::empty(),
            w.spec_gs_creation_queue().no_duplicates(),
            forall|g: u32| #[trigger] w.spec_gs_creation_queue().contains(g) <==> g < lifetimes@.len()
                && lifetimes@[g as int] == GlobalSystemLifetime::AlwaysLive,
            w.spec_gs_deletion_queue() == Seq::<u32>::empty(),
            w.gs_covered(),
    {
        let n_global_systems = lifetimes.len();
        let mut creation = id_queue_new();
        let mut counts: Vec<usize> = Vec::new();
        let mut loaded: Vec<bool> = Vec::new();
        let mut gs_entities: Vec<Vec<EntityPtr>> = Vec::new();
        let mut g: usize = 0;
        while g < n_global_systems
            invariant
                g <= n_global_systems,
                counts@.len() == g,
                loaded@.len() == g,
                gs_entities@.len() == g,
                forall|k: int| 0 <= k < g ==> #[trigger] counts@[k] == 0 && !loaded@[k] && gs_entities@[k]@ == Seq::<EntityPtr>::empty(),
                n_global_systems == lifetimes@.len(),
                n_global_systems <= u32::MAX,
                id_queue_contents(creation).no_duplicates(),
                forall|x: u32| #[trigger] id_queue_contents(creation).contains(x) <==> x < g
                    && lifetimes@[x as int] == GlobalSystemLifetime::AlwaysLive,
            decreases n_global_systems - g,
        {
            let ghost c0 = counts@;
            let ghost l0 = loaded@;
            let ghost e0 = gs_entities@;
            counts.push(0);
            loaded.push(false);
            gs_entities.push(Vec::new());
            proof {
                assert forall|k: int| 0 <= k < g + 1 implies #[trigger] counts@[k] == 0 && !loaded@[k] && gs_entities@[k]@ == Seq::<EntityPtr>::empty() by {
                    if k < g {
                        assert(counts@[k] == c0[k]);
                        assert(loaded@[k] == l0[k]);
                        assert(gs_entities@[k] == e0[k]);
                    }
                }
            }
            let always = match lifetimes[g] {
                GlobalSystemLifetime::AlwaysLive => true,
                _ => false,
            };
            if always {
                let ghost q0 = id_queue_contents(creation);
                id_queue_push(&mut creation, g as u32);
                proof {
                    let q = id_queue_contents(creation);
                    assert(q == q0.push(g as u32));
                    assert forall|x: u32| #[trigger] q.contains(x) <==> x < g + 1
                        && lifetimes@[x as int] == GlobalSystemLifetime::AlwaysLive by {
                        if q.contains(x) && x != g as u32 {
                            let j = choose|j: int| 0 <= j < q.len() && q[j] == x;
                            assert(q0[j] == x);
                        }
                        if q0.contains(x) {
                            let j = choose|j: int| 0 <= j < q0.len() && q0[j] == x;
                            assert(q[j] == x);
                        }
                        if x == g as u32 {
                            assert(q[q0.len() as int] == x);
                        }
                    }
                    assert forall|a: int, b: int| 0 <= a < b < q.len() implies q[a] != q[b] by {
                        if b == q0.len() {
                            assert(q0.contains(q[a]));
                        }
                    }
                }
            }
            g = g + 1;
        }
        let mut stages: Vec<Vec<EntityPtr>> = Vec::new();
        let mut s: usize = 0;
        while s < STAGE_COUNT
            invariant
                s <= STAGE_COUNT,
                stages@.len() == s,
                forall|k: int| 0 <= k < s ==> #[trigger] stages@[k]@ == Seq::<EntityPtr>::empty(),
            decreases STAGE_COUNT - s,
        {
            stages.push(Vec::new());
            s = s + 1;
        }
        let w = World {
            id,
            entities: HashMap::new(),
            allocator: EntityAllocator::new(),
            hierarchy: SpatialHierarchy::new(),
            node_of: HashMap::new(),
            entity_of_node: Vec::new(),
            entities_all: Vec::new(),
            entities_stages: stages,
            global_systems_count: counts,
            global_systems_loaded: loaded,
            gs_creation_queue: creation,
            gs_deletion_queue: id_queue_new(),
            gs_entity_map: gs_entities,
            gs_lifetimes: lifetimes,
        };
        proof {
            assert forall|g: GlobalSystemID| g < w.spec_gs_len() implies #[trigger] w.spec_gs_count()[g as int] == w.users(g).len() by {
                assert(w.users(g) =~= Set::<EntityID>::empty());
            }
            assert forall|g: int| 0 <= g < w.spec_gs_len() implies #[trigger] w.spec_gs_count()[g] == 0 && !w.spec_gs_loaded()[g]
                && w.spec_gs_entities(g) == Seq::<EntityPtr>::empty() by {
                assert(counts@[g] == 0 && !loaded@[g] && gs_entities@[g]@ == Seq::<EntityPtr>::empty());
            }
        }
        w
    }

    #[inline(always)]
    pub fn get_id(&self) -> (r: WorldID)
        ensures
            r == self.spec_id(),
    {
        self.id
    }

    /// The pointer of the entity with identifier `id`, if it lives in this world.
    pub fn get_entity_ptr(&self, id: EntityID) -> (r: Option<EntityPtr>)
        ensures
            match r {
                Some(p) => self.spec_entities().contains_key(id) && p == self.spec_entities()[id],
                None => !self.spec_entities().contains_key(id),
            },
    {
        match self.entities.get(&id) {
            Some(p) => Some(*p),
            None => None,
        }
    }

    /// The entity with identifier `id`, if it lives in this world.
    pub fn get_entity(&self, id: EntityID) -> (r: Option<&Entity<D>>)
        requires
            self.wf(),
        ensures
            match r {
                Some(e) => self.spec_entities().contains_key(id) && *e == self.entity(id),
                None => !self.spec_entities().contains_key(id),
            },
    {
        match self.entities.get(&id) {
            Some(p) => {
                proof {
                    assert(self.entity_ok(id));
                }
                Some(self.allocator.get(p))
            },
            None => None,
        }
    }

    /// Whether `p` points to an entity stored by this world.
    pub fn is_live(&self, p: &EntityPtr) -> (r: bool)
        requires
            self.wf(),
        ensures
            r == (self.spec_allocator()@.contains_key(*p) && self.spec_allocator()@[*p] is Some),
    {
        self.allocator.holds(p)
    }

    /// The spatial hierarchy of the world's spatial entities.
    pub fn get_hierarchy(&self) -> (r: &SpatialHierarchy)
        ensures
            *r == self.spec_hierarchy(),
    {
        &self.hierarchy
    }

    /// The node of the spatial entity `id` in the hierarchy.
    pub fn get_node(&self, id: EntityID) -> (r: Option<NodeIndex>)
        ensures
            match r {
                Some(n) => self.spec_node_of().contains_key(id) && n == self.spec_node_of()[id],
                None => !self.spec_node_of().contains_key(id),
            },
    {
        match self.node_of.get(&id) {
            Some(n) => Some(*n),
            None => None,
        }
    }

    /// Whether global system `g` is loaded.
    pub fn global_system_is_loaded(&self, g: GlobalSystemID) -> (r: bool)
        requires
            self.wf(),
            g < self.spec_gs_len(),
        ensures
            r == self.spec_gs_loaded()[g as int],
    {
        self.global_systems_loaded[g as usize]
    }

    /// The lifetime of global system `g`.
    pub fn global_system_lifetime(&self, g: GlobalSystemID) -> (r: GlobalSystemLifetime)
        requires
            self.wf(),
            g < self.spec_gs_len(),
        ensures
            r == self.spec_gs_lifetimes()[g as int],
    {
        self.gs_lifetimes[g as usize]
    }

    /// Queue the manual global system `g` for loading: it is loaded at the
    /// next processing of the global system commands, unless it is loaded
    /// already.
    pub fn queue_global_system_load(&mut self, g: GlobalSystemID)
        requires
            old(self).wf(),
            g < old(self).spec_gs_len(),
            old(self).spec_gs_lifetimes()[g as int] == GlobalSystemLifetime::Manual,
        ensures
            final(self).wf(),
            final(self).spec_gs_creation_queue() == old(self).spec_gs_creation_queue().push(g),
            final(self).spec_gs_deletion_queue() == old(self).spec_gs_deletion_queue(),
            final(self).spec_gs_loaded() == old(self).spec_gs_loaded(),
            final(self).spec_gs_count() == old(self).spec_gs_count(),
            final(self).spec_gs_lifetimes() == old(self).spec_gs_lifetimes(),
            final(self).spec_entities() == old(self).spec_entities(),
            final(self).spec_allocator() == old(self).spec_allocator(),
            final(self).spec_hierarchy() == old(self).spec_hierarchy(),
            old(self).gs_covered() ==> final(self).gs_covered(),
    {
        let ghost old_self = *self;
        id_queue_push(&mut self.gs_creation_queue, g);
        proof {
            Self::lemma_wf_only_flags_changed(&old_self, self);
            if old_self.gs_covered() {
                assert forall|x: GlobalSystemID| x < self.spec_gs_len() implies #[trigger] self.gs_covers(x) by {
                    assert(old_self.gs_covers(x));
                    if old_self.spec_gs_creation_queue().contains(x) {
                        let k = choose|k: int| 0 <= k < old_self.spec_gs_creation_queue().len() && old_self.spec_gs_creation_queue()[k] == x;
                        assert(self.spec_gs_creation_queue()[k] == x);
                    }
                }
            }
        }
    }

    /// Queue the manual global system `g` for unloading: it is unloaded at
    /// the next processing of the global system commands, if it is loaded
    /// and no entity requires it then.
    pub fn queue_global_system_unload(&mut self, g: GlobalSystemID)
        requires
            old(self).wf(),
            g < old(self).spec_gs_len(),
            old(self).spec_gs_lifetimes()[g as int] == GlobalSystemLifetime::Manual,
        ensures
            final(self).wf(),
            final(self).spec_gs_deletion_queue() == old(self).spec_gs_deletion_queue().push(g),
            final(self).spec_gs_creation_queue() == old(self).spec_gs_creation_queue(),
            final(self).spec_gs_loaded() == old(self).spec_gs_loaded(),
            final(self).spec_gs_count() == old(self).spec_gs_count(),
            final(self).spec_gs_lifetimes() == old(self).spec_gs_lifetimes(),
            final(self).spec_entities() == old(self).spec_entities(),
            final(self).spec_allocator() == old(self).spec_allocator(),
            final(self).spec_hierarchy() == old(self).spec_hierarchy(),
            old(self).gs_covered() ==> final(self).gs_covered(),
    {
        let ghost old_self = *self;
        id_queue_push(&mut self.gs_deletion_queue, g);
        proof {
            Self::lemma_wf_only_flags_changed(&old_self, self);
            if old_self.gs_covered() {
                assert forall|x: GlobalSystemID| x < self.spec_gs_len() implies #[trigger] self.gs_covers(x) by {
                    assert(old_self.gs_covers(x));
                    if old_self.spec_gs_deletion_queue().contains(x) {
                        let k = choose|k: int| 0 <= k < old_self.spec_gs_deletion_queue().len() && old_self.spec_gs_deletion_queue()[k] == x;
                        assert(self.spec_gs_deletion_queue()[k] == x);
                    }
                }
            }
        }
    }

    /// How many entities require global system `g`.
    pub fn global_system_count(&self, g: GlobalSystemID) -> (r: usize)
        requires
            g < self.spec_gs_len(),
        ensures
            r == self.spec_gs_count()[g as int],
    {
        self.global_systems_count[g as usize]
    }

    /// The entities to run in stage `stage_id`.
    pub fn get_stage_entities(&self, stage_id: StageID) -> (r: &Vec<EntityPtr>)
        requires
            self.wf(),
        ensures
            r@ == self.spec_stage_entities(stage_id as int),
    {
        &self.entities_stages[stage_id as usize]
    }

    /// Every entity of the world.
    pub fn get_entities_all(&self) -> (r: &Vec<EntityPtr>)
        ensures
            r@ == self.spec_entities_all(),
    {
        &self.entities_all
    }
}

impl<D: DataGroupMeta> World<D> {
    /// Count one more entity for each global system of `systems`, record the
    /// entity among those that require it, and queue for loading, in order,
    /// those that are not loaded.
    fn require_global_systems(&mut self, systems: &Vec<GlobalSystemID>, ptr: EntityPtr)
        requires
            old(self).stage_tables_ok(),
            systems@.no_duplicates(),
            forall|g: GlobalSystemID| #[trigger] systems@.contains(g) ==> g < old(self).spec_gs_len()
                && old(self).spec_gs_count()[g as int] < usize::MAX,
        ensures
            final(self).stage_tables_ok(),
            final(self).spec_gs_len() == old(self).spec_gs_len(),
            forall|g: GlobalSystemID| g < old(self).spec_gs_len() ==> #[trigger] final(self).spec_gs_count()[g as int] == if systems@.contains(g) {
                old(self).spec_gs_count()[g as int] + 1
            } else {
                old(self).spec_gs_count()[g as int] as int
            },
            forall|g: GlobalSystemID| g < old(self).spec_gs_len() ==> #[trigger] final(self).spec_gs_entities(g as int) == if systems@.contains(g) {
                old(self).spec_gs_entities(g as int).push(ptr)
            } else {
                old(self).spec_gs_entities(g as int)
            },
            final(self).spec_gs_loaded() == old(self).spec_gs_loaded(),
            final(self).spec_gs_deletion_queue() == old(self).spec_gs_deletion_queue(),
            final(self).spec_gs_creation_queue() == old(self).spec_gs_creation_queue() + systems@.filter(
                |g: GlobalSystemID| !old(self).spec_gs_loaded()[g as int],
            ),
            final(self).entities == old(self).entities,
            final(self).allocator == old(self).allocator,
            final(self).hierarchy == old(self).hierarchy,
            final(self).node_of == old(self).node_of,
            final(self).entity_of_node == old(self).entity_of_node,
            final(self).entities_all == old(self).entities_all,
            final(self).entities_stages == old(self).entities_stages,
            final(self).gs_lifetimes == old(self).gs_lifetimes,
            final(self).id == old(self).id,
    {
        let ghost old_self = *self;
        let ghost q0 = id_queue_contents(self.gs_creation_queue);
        let ghost unloaded = |g: GlobalSystemID| !old_self.spec_gs_loaded()[g as int];
        let mut k: usize = 0;
        proof {
            assert(systems@.take(0) =~= Seq::<GlobalSystemID>::empty());
            assert(q0 + Seq::<GlobalSystemID>::empty().filter(unloaded) =~= q0);
        }
        while k < systems.len()
            invariant
                k <= systems@.len(),
                systems@.no_duplicates(),
                forall|g: GlobalSystemID| #[trigger] systems@.contains(g) ==> g < old_self.spec_gs_len()
                    && old_self.spec_gs_count()[g as int] < usize::MAX,
                self.stage_tables_ok(),
                self.spec_gs_len() == old_self.spec_gs_len(),
                forall|g: GlobalSystemID| g < old_self.spec_gs_len() ==> #[trigger] self.spec_gs_count()[g as int] == if systems@.take(k as int).contains(g) {
                    old_self.spec_gs_count()[g as int] + 1
                } else {
                    old_self.spec_gs_count()[g as int] as int
                },
                forall|g: GlobalSystemID| g < old_self.spec_gs_len() ==> #[trigger] self.spec_gs_entities(g as int) == if systems@.take(k as int).contains(g) {
                    old_self.spec_gs_entities(g as int).push(ptr)
                } else {
                    old_self.spec_gs_entities(g as int)
                },
                self.spec_gs_loaded() == old_self.spec_gs_loaded(),
                self.spec_gs_deletion_queue() == old_self.spec_gs_deletion_queue(),
                self.spec_gs_creation_queue() == q0 + systems@.take(k as int).filter(unloaded),
                q0 == old_self.spec_gs_creation_queue(),
                unloaded == (|g: GlobalSystemID| !old_self.spec_gs_loaded()[g as int]),
                self.entities == old_self.entities,
                self.allocator == old_self.allocator,
                self.hierarchy == old_self.hierarchy,
                self.node_of == old_self.node_of,
                self.entity_of_node == old_self.entity_of_node,
                self.entities_all == old_self.entities_all,
                self.entities_stages == old_self.entities_stages,
                self.gs_lifetimes == old_self.gs_lifetimes,
                self.id == old_self.id,
            decreases systems@.len() - k,
        {
            let g = systems[k];
            let ghost pre = *self;
            proof {
                assert(systems@.contains(g));
                assert(systems@.take(k + 1) =~= systems@.take(k as int).push(g));
                assert(pre.spec_gs_count()[g as int] == old_self.spec_gs_count()[g as int]) by {
                    assert(!systems@.take(k as int).contains(g)) by {
                        if systems@.take(k as int).contains(g) {
                            let j = choose|j: int| 0 <= j < k && #[trigger] systems@.take(k as int)[j] == g;
                            assert(systems@[j] == systems@[k as int]);
                        }
                    }
                }
                assert(!systems@.take(k as int).contains(g)) by {
                    if systems@.take(k as int).contains(g) {
                        let j = choose|j: int| 0 <= j < k && systems@.take(k as int)[j] == g;
                        assert(systems@[j] == systems@[k as int]);
                    }
                }
                reveal_with_fuel(Seq::filter, 1);
                assert(systems@.take(k + 1).filter(unloaded) == systems@.take(k as int).filter(unloaded) + if unloaded(g) {
                    seq![g]
                } else {
                    Seq::<GlobalSystemID>::empty()
                }) by {
                    assert(systems@.take(k + 1).drop_last() =~= systems@.take(k as int));
                    if !unloaded(g) {
                        assert(systems@.take(k as int).filter(unloaded) + Seq::<GlobalSystemID>::empty() =~= systems@.take(k as int).filter(unloaded));
                    }
                }
            }
            let gi = g as usize;
            let c = self.global_systems_count[gi];
            let nc: usize = c + 1;
            self.global_systems_count.set(gi, nc);
            if !self.global_systems_loaded[gi] {
                id_queue_push(&mut self.gs_creation_queue, g);
                proof {
                    assert((q0 + systems@.take(k as int).filter(unloaded)).push(g) =~= q0 + (systems@.take(k as int).filter(unloaded) + seq![g]));
                }
            } else {
                proof {
                    assert(q0 + systems@.take(k as int).filter(unloaded) =~= q0 + (systems@.take(k as int).filter(unloaded) + Seq::<GlobalSystemID>::empty()));
                }
            }
            push_to_row(&mut self.gs_entity_map, gi, ptr);
            proof {
                assert forall|x: GlobalSystemID| #[trigger] systems@.take(k + 1).contains(x) == (systems@.take(k as int).contains(x) || x == g) by {
                    if systems@.take(k + 1).contains(x) && x != g {
                        let j = choose|j: int| 0 <= j < k + 1 && #[trigger] systems@.take(k + 1)[j] == x;
                        assert(systems@.take(k as int)[j] == x);
                    }
                    if systems@.take(k as int).contains(x) {
                        let j = choose|j: int| 0 <= j < k && #[trigger] systems@.take(k as int)[j] == x;
                        assert(systems@.take(k + 1)[j] == x);
                    }
                    if x == g {
                        assert(systems@.take(k + 1)[k as int] == g);
                    }
                }
                assert forall|x: GlobalSystemID| x < old_self.spec_gs_len() implies #[trigger] self.spec_gs_count()[x as int] == if systems@.take(k + 1).contains(x) {
                    old_self.spec_gs_count()[x as int] + 1
                } else {
                    old_self.spec_gs_count()[x as int] as int
                } by {
                    assert(systems@.take(k + 1).contains(x) == (systems@.take(k as int).contains(x) || x == g));
                    assert(pre.spec_gs_count()[x as int] == if systems@.take(k as int).contains(x) {
                        old_self.spec_gs_count()[x as int] + 1
                    } else {
                        old_self.spec_gs_count()[x as int] as int
                    });
                    if x != g {
                        assert(self.spec_gs_count()[x as int] == pre.spec_gs_count()[x as int]);
                    } else {
                        assert(c == pre.spec_gs_count()[g as int]);
                    }
                }
                assert forall|x: GlobalSystemID| x < old_self.spec_gs_len() implies #[trigger] self.spec_gs_entities(x as int) == if systems@.take(k + 1).contains(x) {
                    old_self.spec_gs_entities(x as int).push(ptr)
                } else {
                    old_self.spec_gs_entities(x as int)
                } by {
                    assert(systems@.take(k + 1).contains(x) == (systems@.take(k as int).contains(x) || x == g));
                    assert(pre.spec_gs_entities(x as int) == if systems@.take(k as int).contains(x) {
                        old_self.spec_gs_entities(x as int).push(ptr)
                    } else {
                        old_self.spec_gs_entities(x as int)
                    });
                    if x != g {
                        assert(self.gs_entity_map@[x as int] == pre.gs_entity_map@[x as int]);
                    }
                }
            }
            k = k + 1;
        }
        proof {
            assert(systems@.take(k as int) =~= systems@);
        }
    }
}

impl<D: DataGroupMeta> World<D> {
    /// Create a new entity from its spawn description, with identifier `id`:
    /// store it in a newly allocated slot, give a spatial entity its own node
    /// in the hierarchy, schedule it in the stages it runs in, and count it
    /// for each of its global systems, queueing for loading those that are not
    /// loaded (in increasing identifier order).
    pub fn create_entity_internal<A, F: Fn() -> D, G, S>(
        &mut self,
        id: EntityID,
        spawn_desc: EntitySpawnDescription<A>,
        dg_registry: &DataGroupRegistry<F>,
        ls_registry: &LocalSystemRegistry<G, S>,
        transform_id: DataGroupID,
    ) -> (ptr: EntityPtr) where D: DataGroup<A>
        requires
            old(self).wf(),
            !old(self).spec_entities().contains_key(id),
            spawn_desc.spec_datagroups().len() <= INVALID_DATAGROUP_INDEX,
            datagroups_can_be_created(spawn_desc.spec_datagroups(), dg_registry@),
            local_systems_can_run(spawn_desc.spec_local_systems(), spawn_desc.spec_datagroups(), ls_registry@),
            forall|g: GlobalSystemID| #[trigger] spawn_desc.spec_global_systems().contains(g) ==> g < old(self).spec_gs_len(),
            forall|g: GlobalSystemID| #[trigger] spawn_desc.spec_global_systems().contains(g)
                && old(self).spec_gs_lifetimes()[g as int] == GlobalSystemLifetime::Manual ==> old(self).spec_gs_loaded()[g as int],
            old(self).spec_hierarchy().len() < usize::MAX,
            old(self).spec_entities().len() < usize::MAX,
        ensures
            final(self).wf(),
            !old(self).spec_allocator()@.contains_key(ptr),
            final(self).spec_entities() == old(self).spec_entities().insert(id, ptr),
            final(self).spec_entities_all() == old(self).spec_entities_all().push(ptr),
            final(self).entity(id).spec_id() == id,
            final(self).entity(id).spec_self_ptr() == ptr,
            final(self).entity(id).spec_name() == spawn_desc.spec_name(),
            final(self).entity(id).spec_local_systems() == spawn_desc.spec_local_systems(),
            final(self).entity(id).spec_global_systems() == spawn_desc.spec_global_systems(),
            forall|g: DataGroupID| dg_ids(final(self).entity(id).spec_datagroups()).contains(g) <==> spawn_desc.spec_datagroups().contains_key(g),
            final(self).entity(id).spec_transform_index() == slot_of(dg_ids(final(self).entity(id).spec_datagroups()), transform_id),
            forall|o: EntityID| #[trigger] old(self).spec_entities().contains_key(o) ==> final(self).entity(o) == old(self).entity(o),
            forall|o: EntityID| o != id ==> #[trigger] final(self).spec_node_of().contains_key(o) == old(self).spec_node_of().contains_key(o),
            forall|o: EntityID| o != id && old(self).spec_node_of().contains_key(o) ==> #[trigger] final(self).spec_node_of()[o] == old(self).spec_node_of()[o],
            final(self).spec_node_of().contains_key(id) ==> final(self).spec_node_of()[id] == old(self).spec_hierarchy().len(),
            final(self).spec_hierarchy().len() == old(self).spec_hierarchy().len() + if final(self).spec_node_of().contains_key(id) {
                1int
            } else {
                0int
            },
            forall|x: int| 0 <= x < old(self).spec_hierarchy().len() ==> #[trigger] final(self).spec_hierarchy().parent_of(x) == old(self).spec_hierarchy().parent_of(x),
            forall|s: int| 0 <= s < STAGE_COUNT ==> #[trigger] final(self).spec_stage_entities(s) == if final(self).entity(id).spec_stage_flags()[s] {
                old(self).spec_stage_entities(s).push(ptr)
            } else {
                old(self).spec_stage_entities(s)
            },
            final(self).spec_gs_len() == old(self).spec_gs_len(),
            forall|g: GlobalSystemID| g < old(self).spec_gs_len() ==> #[trigger] final(self).spec_gs_count()[g as int] == if spawn_desc.spec_global_systems().contains(g) {
                old(self).spec_gs_count()[g as int] + 1
            } else {
                old(self).spec_gs_count()[g as int] as int
            },
            forall|g: GlobalSystemID| g < old(self).spec_gs_len() ==> #[trigger] final(self).spec_gs_entities(g as int) == if spawn_desc.spec_global_systems().contains(g) {
                old(self).spec_gs_entities(g as int).push(ptr)
            } else {
                old(self).spec_gs_entities(g as int)
            },
            final(self).spec_gs_loaded() == old(self).spec_gs_loaded(),
            final(self).spec_gs_deletion_queue() == old(self).spec_gs_deletion_queue(),
            exists|sys: Seq<GlobalSystemID>| sorted_elements(spawn_desc.spec_global_systems(), sys)
                && final(self).spec_gs_creation_queue() == old(self).spec_gs_creation_queue() + sys.filter(
                |g: GlobalSystemID| !old(self).spec_gs_loaded()[g as int],
            ),
            final(self).spec_id() == old(self).spec_id(),
            final(self).spec_gs_lifetimes() == old(self).spec_gs_lifetimes(),
            old(self).gs_covered() ==> final(self).gs_covered(),
    {
        let ghost old_self = *self;
        let ptr = self.allocator.allocate();
        let e = Entity::init(id, ptr, spawn_desc, dg_registry, ls_registry, transform_id);
        let mut node: NodeIndex = 0;
        if e.is_spatial_entity() {
            node = self.hierarchy.add_node(e.get_ls_stage_enabled_map());
            self.entity_of_node.push(id);
            self.node_of.insert(id, node);
        }
        let ghost mid = *self;
        let mut s: usize = 0;
        while s < STAGE_COUNT
            invariant
                s <= STAGE_COUNT,
                e.wf(),
                self.hierarchy.wf(),
                e.spec_transform_index() != INVALID_DATAGROUP_INDEX ==> {
                    &&& node == old_self.spec_hierarchy().len()
                    &&& node < self.hierarchy.len()
                    &&& self.hierarchy.parent_of(node as int) is None
                    &&& forall|t: int| 0 <= t < STAGE_COUNT ==> #[trigger] self.hierarchy.stage_count_of(node as int, t) == if e.spec_stage_flags()[t] {
                        1usize
                    } else {
                        0usize
                    }
                },
                self.entities_stages@.len() == STAGE_COUNT,
                forall|t: int| 0 <= t < s ==> #[trigger] self.spec_stage_entities(t) == if e.spec_stage_flags()[t] {
                    old_self.spec_stage_entities(t).push(ptr)
                } else {
                    old_self.spec_stage_entities(t)
                },
                forall|t: int| s <= t < STAGE_COUNT ==> #[trigger] self.spec_stage_entities(t) == old_self.spec_stage_entities(t),
                self.hierarchy == mid.hierarchy,
                self.entities == mid.entities,
                self.allocator == mid.allocator,
                self.node_of == mid.node_of,
                self.entity_of_node == mid.entity_of_node,
                self.entities_all == mid.entities_all,
                self.global_systems_count == mid.global_systems_count,
                self.global_systems_loaded == mid.global_systems_loaded,
                self.gs_creation_queue == mid.gs_creation_queue,
                self.gs_deletion_queue == mid.gs_deletion_queue,
                self.gs_lifetimes == mid.gs_lifetimes,
                self.gs_entity_map == mid.gs_entity_map,
                self.id == mid.id,
            decreases STAGE_COUNT - s,
        {
            let stage = s as StageID;
            let ghost pre = *self;
            let should = e.should_run_in_stage(stage, &self.hierarchy, node);
            proof {
                if e.spec_transform_index() != INVALID_DATAGROUP_INDEX {
                    let h = self.hierarchy;
                    assert(h.node_ok(node as int));
                    assert(h.stage_count_of(node as int, s as int) == h.subtree_in_stage(node as int, s as int).len());
                }
            }
            if should {
                push_to_row(&mut self.entities_stages, s, ptr);
            }
            proof {
                assert forall|t: int| 0 <= t < STAGE_COUNT && t != s implies #[trigger] self.spec_stage_entities(t) == pre.spec_stage_entities(t) by {
                    assert(self.entities_stages@[t] == pre.entities_stages@[t]);
                }
                assert forall|t: int| 0 <= t < s + 1 implies #[trigger] self.spec_stage_entities(t) == if e.spec_stage_flags()[t] {
                    old_self.spec_stage_entities(t).push(ptr)
                } else {
                    old_self.spec_stage_entities(t)
                } by {
                    if t == s {
                        assert(should == e.spec_stage_flags()[t]);
                        assert(pre.spec_stage_entities(t) == old_self.spec_stage_entities(t));
                    } else {
                        assert(pre.spec_stage_entities(t) == if e.spec_stage_flags()[t] {
                            old_self.spec_stage_entities(t).push(ptr)
                        } else {
                            old_self.spec_stage_entities(t)
                        });
                    }
                }
                assert forall|t: int| s + 1 <= t < STAGE_COUNT implies #[trigger] self.spec_stage_entities(t) == old_self.spec_stage_entities(t) by {
                    assert(pre.spec_stage_entities(t) == old_self.spec_stage_entities(t));
                }
            }
            s = s + 1;
        }
        let gs = sorted_system_ids(e.get_global_systems());
        proof {
            lemma_strictly_sorted_no_duplicates(gs@);
            assert forall|g: GlobalSystemID| #[trigger] gs@.contains(g) implies g < self.spec_gs_len() by {
                assert(e.spec_global_systems().contains(g));
            }
        }
        let ghost before_gs = *self;
        proof {
            assert forall|g: GlobalSystemID| #[trigger] gs@.contains(g) implies g < self.spec_gs_len()
                && self.spec_gs_count()[g as int] < usize::MAX by {
                assert(e.spec_global_systems().contains(g));
                assert(old_self.spec_gs_count()[g as int] == old_self.users(g).len());
                old_self.spec_entities().dom().lemma_len_filter(|o: EntityID| old_self.entity(o).spec_global_systems().contains(g));
            }
        }
        self.require_global_systems(&gs, ptr);
        let ghost after_gs = *self;
        self.allocator.init(&ptr, e);
        self.entities.insert(id, ptr);
        self.entities_all.push(ptr);
        proof {
            assert(self.node_of == mid.node_of);
            assert(self.hierarchy == mid.hierarchy);
            assert(self.entity_of_node == mid.entity_of_node);
            assert forall|t: int| 0 <= t < STAGE_COUNT implies #[trigger] self.spec_stage_entities(t) == if e.spec_stage_flags()[t] {
                old_self.spec_stage_entities(t).push(ptr)
            } else {
                old_self.spec_stage_entities(t)
            } by {
                assert(self.spec_stage_entities(t) == before_gs.spec_stage_entities(t));
            }
            if e.spec_transform_index() != INVALID_DATAGROUP_INDEX {
                assert(self.spec_node_of().contains_key(id));
                assert(self.spec_node_of()[id] == node);
            } else {
                assert(!old_self.spec_node_of().contains_key(id));
                assert(!self.spec_node_of().contains_key(id));
            }
            assert(before_gs.spec_gs_count() == old_self.spec_gs_count());
            assert(before_gs.spec_gs_loaded() == old_self.spec_gs_loaded());
            assert(before_gs.spec_gs_creation_queue() == old_self.spec_gs_creation_queue());
            assert(before_gs.spec_gs_deletion_queue() == old_self.spec_gs_deletion_queue());
            assert forall|g: int| 0 <= g < old_self.spec_gs_len() implies #[trigger] before_gs.spec_gs_entities(g) == old_self.spec_gs_entities(g) by {}
            assert(sorted_elements(e.spec_global_systems(), gs@));
            assert forall|g: GlobalSystemID| g < old_self.spec_gs_len() implies #[trigger] self.spec_gs_count()[g as int] == if e.spec_global_systems().contains(g) {
                old_self.spec_gs_count()[g as int] + 1
            } else {
                old_self.spec_gs_count()[g as int] as int
            } by {
                assert(gs@.contains(g) == e.spec_global_systems().contains(g));
                assert(self.spec_gs_count()[g as int] == after_gs.spec_gs_count()[g as int]);
                assert(after_gs.spec_gs_count()[g as int] == if gs@.contains(g) {
                    before_gs.spec_gs_count()[g as int] + 1
                } else {
                    before_gs.spec_gs_count()[g as int] as int
                });
            }
            assert forall|g: GlobalSystemID| g < old_self.spec_gs_len() implies #[trigger] self.spec_gs_entities(g as int) == if e.spec_global_systems().contains(g) {
                old_self.spec_gs_entities(g as int).push(ptr)
            } else {
                old_self.spec_gs_entities(g as int)
            } by {
                assert(gs@.contains(g) == e.spec_global_systems().contains(g));
                assert(self.spec_gs_entities(g as int) == after_gs.spec_gs_entities(g as int));
                assert(after_gs.spec_gs_entities(g as int) == if gs@.contains(g) {
                    before_gs.spec_gs_entities(g as int).push(ptr)
                } else {
                    before_gs.spec_gs_entities(g as int)
                });
                assert(before_gs.spec_gs_entities(g as int) == old_self.spec_gs_entities(g as int));
            }
            assert(self.entity(id) == e);
            assert forall|o: EntityID| #[trigger] old_self.spec_entities().contains_key(o) implies self.entity(o) == old_self.entity(o) by {
                assert(old_self.entity_ok(o));
                assert(o != id);
                assert(old_self.spec_entities()[o] != ptr);
            }
            assert(self.spec_allocator().wf());
            assert(self.spec_hierarchy().wf());
            assert(self.spec_entity_of_node().len() == self.spec_hierarchy().len());
            assert(self.stage_tables_ok());
            assert forall|o: EntityID| #[trigger] self.spec_node_of().contains_key(o) implies self.spec_entities().contains_key(o) by {
                if o != id {
                    assert(old_self.spec_node_of().contains_key(o));
                }
            }
            assert forall|g: GlobalSystemID| g < self.spec_gs_len() implies #[trigger] self.spec_gs_count()[g as int] == self.users(g).len() by {
                assert(old_self.spec_gs_count()[g as int] == old_self.users(g).len());
                let f = |o: EntityID| old_self.entity(o).spec_global_systems().contains(g);
                old_self.spec_entities().dom().lemma_len_filter(f);
                assert(!old_self.users(g).contains(id));
                if e.spec_global_systems().contains(g) {
                    assert(self.users(g) =~= old_self.users(g).insert(id)) by {
                        assert forall|o: EntityID| #[trigger] self.users(g).contains(o) <==> old_self.users(g).insert(id).contains(o) by {
                            if o != id && old_self.spec_entities().contains_key(o) {
                                assert(old_self.entity_ok(o));
                                assert(old_self.spec_entities()[o] != ptr);
                            }
                        }
                    }
                } else {
                    assert(self.users(g) =~= old_self.users(g)) by {
                        assert forall|o: EntityID| #[trigger] self.users(g).contains(o) <==> old_self.users(g).contains(o) by {
                            if o != id && old_self.spec_entities().contains_key(o) {
                                assert(old_self.entity_ok(o));
                                assert(old_self.spec_entities()[o] != ptr);
                            }
                        }
                    }
                }
            }
            assert forall|o: EntityID| #[trigger] self.spec_entities().contains_key(o) implies self.entity_ok(o) by {
                if o != id {
                    assert(old_self.entity_ok(o));
                    assert(old_self.spec_entities()[o] != ptr);
                    if old_self.spec_node_of().contains_key(o) {
                        assert(self.spec_entity_of_node()[old_self.spec_node_of()[o] as int] == o);
                    }
                }
            }
            if old_self.gs_covered() {
                let unloaded = |g: GlobalSystemID| !old_self.spec_gs_loaded()[g as int];
                assert(self.spec_gs_creation_queue() == old_self.spec_gs_creation_queue() + gs@.filter(unloaded));
                assert forall|g: GlobalSystemID| g < self.spec_gs_len() implies #[trigger] self.gs_covers(g) by {
                    assert(old_self.gs_covers(g));
                    assert(gs@.contains(g) == e.spec_global_systems().contains(g));
                    if gs@.contains(g) && unloaded(g) {
                        let j = choose|j: int| 0 <= j < gs@.len() && gs@[j] == g;
                        gs@.lemma_filter_contains(unloaded, j);
                        assert(gs@.filter(unloaded).contains(g));
                        let q = self.spec_gs_creation_queue();
                        let q0 = old_self.spec_gs_creation_queue();
                        let k = choose|k: int| 0 <= k < gs@.filter(unloaded).len() && gs@.filter(unloaded)[k] == g;
                        assert(q[q0.len() + k] == g);
                    }
                    if old_self.spec_gs_creation_queue().contains(g) {
                        let q0 = old_self.spec_gs_creation_queue();
                        let k = choose|k: int| 0 <= k < q0.len() && q0[k] == g;
                        assert(self.spec_gs_creation_queue()[k] == g);
                    }
                }
            }
        }
        ptr
    }
}

proof fn lemma_strictly_sorted_no_duplicates(r: Seq<u32>)
    requires
        crate::entity::strictly_sorted(r),
    ensures
        r.no_duplicates(),
{
    assert forall|i: int, j: int| 0 <= i < r.len() && 0 <= j < r.len() && i != j implies r[i] != r[j] by {
        if i < j {
            assert(r[i] < r[j]);
        } else {
            assert(r[j] < r[i]);
        }
    }
}

impl<D: DataGroupMeta> World<D> {
    /// Count one entity less for each global system of `systems`, forget
    /// `ptr` among the entities that require them, and queue for unloading, in
    /// order, those that no entity requires any more.
    fn release_global_systems(&mut self, systems: &Vec<GlobalSystemID>, ptr: EntityPtr)
        requires
            old(self).stage_tables_ok(),
            systems@.no_duplicates(),
            forall|g: GlobalSystemID| #[trigger] systems@.contains(g) ==> g < old(self).spec_gs_len()
                && old(self).spec_gs_count()[g as int] > 0,
        ensures
            final(self).stage_tables_ok(),
            final(self).spec_gs_len() == old(self).spec_gs_len(),
            forall|g: GlobalSystemID| g < old(self).spec_gs_len() ==> #[trigger] final(self).spec_gs_count()[g as int] == if systems@.contains(g) {
                old(self).spec_gs_count()[g as int] - 1
            } else {
                old(self).spec_gs_count()[g as int] as int
            },
            forall|g: GlobalSystemID| g < old(self).spec_gs_len() ==> #[trigger] final(self).spec_gs_entities(g as int) == without(old(self).spec_gs_entities(g as int), ptr),
            final(self).spec_gs_loaded() == old(self).spec_gs_loaded(),
            final(self).spec_gs_creation_queue() == old(self).spec_gs_creation_queue(),
            final(self).spec_gs_deletion_queue() == old(self).spec_gs_deletion_queue() + systems@.filter(
                |g: GlobalSystemID| old(self).spec_gs_count()[g as int] == 1
                    && old(self).spec_gs_lifetimes()[g as int] == GlobalSystemLifetime::WhenRequired,
            ),
            final(self).entities == old(self).entities,
            final(self).allocator == old(self).allocator,
            final(self).hierarchy == old(self).hierarchy,
            final(self).node_of == old(self).node_of,
            final(self).entity_of_node == old(self).entity_of_node,
            final(self).entities_all == old(self).entities_all,
            final(self).entities_stages == old(self).entities_stages,
            final(self).gs_lifetimes == old(self).gs_lifetimes,
            final(self).id == old(self).id,
    {
        let ghost old_self = *self;
        let ghost q0 = id_queue_contents(self.gs_deletion_queue);
        let ghost last = |g: GlobalSystemID| old_self.spec_gs_count()[g as int] == 1
            && old_self.spec_gs_lifetimes()[g as int] == GlobalSystemLifetime::WhenRequired;
        let n = self.gs_entity_map.len();
        let mut g: usize = 0;
        while g < n
            invariant
                g <= n,
                n == old_self.spec_gs_len(),
                self.stage_tables_ok(),
                self.spec_gs_len() == old_self.spec_gs_len(),
                self.global_systems_count == old_self.global_systems_count,
                self.gs_deletion_queue == old_self.gs_deletion_queue,
                self.gs_creation_queue == old_self.gs_creation_queue,
                self.global_systems_loaded == old_self.global_systems_loaded,
                forall|k: int| 0 <= k < g ==> #[trigger] self.spec_gs_entities(k) == without(old_self.spec_gs_entities(k), ptr),
                forall|k: int| g <= k < n ==> #[trigger] self.spec_gs_entities(k) == old_self.spec_gs_entities(k),
                self.entities == old_self.entities,
                self.allocator == old_self.allocator,
                self.hierarchy == old_self.hierarchy,
                self.node_of == old_self.node_of,
                self.entity_of_node == old_self.entity_of_node,
                self.entities_all == old_self.entities_all,
                self.entities_stages == old_self.entities_stages,
                self.gs_lifetimes == old_self.gs_lifetimes,
                self.id == old_self.id,
            decreases n - g,
        {
            let ghost pre = *self;
            remove_from_row(&mut self.gs_entity_map, g, ptr);
            proof {
                assert forall|k: int| 0 <= k < n && k != g implies #[trigger] self.spec_gs_entities(k) == pre.spec_gs_entities(k) by {
                    assert(self.gs_entity_map@[k] == pre.gs_entity_map@[k]);
                }
                assert forall|k: int| 0 <= k < g + 1 implies #[trigger] self.spec_gs_entities(k) == without(old_self.spec_gs_entities(k), ptr) by {
                    if k < g {
                        assert(pre.spec_gs_entities(k) == without(old_self.spec_gs_entities(k), ptr));
                    } else {
                        assert(pre.spec_gs_entities(k) == old_self.spec_gs_entities(k));
                    }
                }
                assert forall|k: int| g + 1 <= k < n implies #[trigger] self.spec_gs_entities(k) == old_self.spec_gs_entities(k) by {
                    assert(pre.spec_gs_entities(k) == old_self.spec_gs_entities(k));
                }
            }
            g = g + 1;
        }
        let ghost mid = *self;
        let mut k: usize = 0;
        proof {
            assert(systems@.take(0) =~= Seq::<GlobalSystemID>::empty());
            assert(q0 + Seq::<GlobalSystemID>::empty().filter(last) =~= q0);
        }
        while k < systems.len()
            invariant
                k <= systems@.len(),
                systems@.no_duplicates(),
                forall|x: GlobalSystemID| #[trigger] systems@.contains(x) ==> x < old_self.spec_gs_len()
                    && old_self.spec_gs_count()[x as int] > 0,
                self.stage_tables_ok(),
                self.spec_gs_len() == old_self.spec_gs_len(),
                forall|x: GlobalSystemID| x < old_self.spec_gs_len() ==> #[trigger] self.spec_gs_count()[x as int] == if systems@.take(k as int).contains(x) {
                    old_self.spec_gs_count()[x as int] - 1
                } else {
                    old_self.spec_gs_count()[x as int] as int
                },
                self.spec_gs_loaded() == old_self.spec_gs_loaded(),
                self.spec_gs_creation_queue() == old_self.spec_gs_creation_queue(),
                self.spec_gs_deletion_queue() == q0 + systems@.take(k as int).filter(last),
                q0 == old_self.spec_gs_deletion_queue(),
                last == (|x: GlobalSystemID| old_self.spec_gs_count()[x as int] == 1
                    && old_self.spec_gs_lifetimes()[x as int] == GlobalSystemLifetime::WhenRequired),
                self.gs_entity_map == mid.gs_entity_map,
                self.entities == old_self.entities,
                self.allocator == old_self.allocator,
                self.hierarchy == old_self.hierarchy,
                self.node_of == old_self.node_of,
                self.entity_of_node == old_self.entity_of_node,
                self.entities_all == old_self.entities_all,
                self.entities_stages == old_self.entities_stages,
                self.gs_lifetimes == old_self.gs_lifetimes,
                self.id == old_self.id,
            decreases systems@.len() - k,
        {
            let x = systems[k];
            let ghost pre = *self;
            proof {
                assert(systems@.contains(x));
                assert(systems@.take(k + 1) =~= systems@.take(k as int).push(x));
                assert(!systems@.take(k as int).contains(x)) by {
                    if systems@.take(k as int).contains(x) {
                        let j = choose|j: int| 0 <= j < k && #[trigger] systems@.take(k as int)[j] == x;
                        assert(systems@[j] == systems@[k as int]);
                    }
                }
                assert(pre.spec_gs_count()[x as int] == old_self.spec_gs_count()[x as int]);
                reveal_with_fuel(Seq::filter, 1);
                assert(systems@.take(k + 1).filter(last) == systems@.take(k as int).filter(last) + if last(x) {
                    seq![x]
                } else {
                    Seq::<GlobalSystemID>::empty()
                }) by {
                    assert(systems@.take(k + 1).drop_last() =~= systems@.take(k as int));
                    if !last(x) {
                        assert(systems@.take(k as int).filter(last) + Seq::<GlobalSystemID>::empty() =~= systems@.take(k as int).filter(last));
                    }
                }
            }
            let xi = x as usize;
            let c = self.global_systems_count[xi];
            self.global_systems_count.set(xi, c - 1);
            let when_required = match self.gs_lifetimes[xi] {
                GlobalSystemLifetime::WhenRequired => true,
                _ => false,
            };
            if c == 1 && when_required {
                id_queue_push(&mut self.gs_deletion_queue, x);
                proof {
                    assert((q0 + systems@.take(k as int).filter(last)).push(x) =~= q0 + (systems@.take(k as int).filter(last) + seq![x]));
                }
            } else {
                proof {
                    assert(q0 + systems@.take(k as int).filter(last) =~= q0 + (systems@.take(k as int).filter(last) + Seq::<GlobalSystemID>::empty()));
                }
            }
            proof {
                assert forall|y: GlobalSystemID| #[trigger] systems@.take(k + 1).contains(y) == (systems@.take(k as int).contains(y) || y == x) by {
                    if systems@.take(k + 1).contains(y) && y != x {
                        let j = choose|j: int| 0 <= j < k + 1 && #[trigger] systems@.take(k + 1)[j] == y;
                        assert(systems@.take(k as int)[j] == y);
                    }
                    if systems@.take(k as int).contains(y) {
                        let j = choose|j: int| 0 <= j < k && #[trigger] systems@.take(k as int)[j] == y;
                        assert(systems@.take(k + 1)[j] == y);
                    }
                    if y == x {
                        assert(systems@.take(k + 1)[k as int] == x);
                    }
                }
                assert forall|y: GlobalSystemID| y < old_self.spec_gs_len() implies #[trigger] self.spec_gs_count()[y as int] == if systems@.take(k + 1).contains(y) {
                    old_self.spec_gs_count()[y as int] - 1
                } else {
                    old_self.spec_gs_count()[y as int] as int
                } by {
                    assert(pre.spec_gs_count()[y as int] == if systems@.take(k as int).contains(y) {
                        old_self.spec_gs_count()[y as int] - 1
                    } else {
                        old_self.spec_gs_count()[y as int] as int
                    });
                    if y != x {
                        assert(self.spec_gs_count()[y as int] == pre.spec_gs_count()[y as int]);
                    }
                }
            }
            k = k + 1;
        }
        proof {
            assert(systems@.take(k as int) =~= systems@);
            assert forall|x: GlobalSystemID| x < old_self.spec_gs_len() implies #[trigger] self.spec_gs_entities(x as int) == without(old_self.spec_gs_entities(x as int), ptr) by {
                assert(mid.spec_gs_entities(x as int) == without(old_self.spec_gs_entities(x as int), ptr));
            }
        }
    }
}

impl<D: DataGroupMeta> World<D> {
    /// Destroy the single entity `eid`: forget it everywhere, count it no
    /// more for its global systems (queueing for unloading those that no
    /// entity requires any more), and free its slot. Its node, if it has one,
    /// stays in the hierarchy.
    fn release_entity(&mut self, eid: EntityID)
        requires
            old(self).wf(),
            old(self).spec_entities().contains_key(eid),
        ensures
            final(self).wf(),
            final(self).spec_entities() == old(self).spec_entities().remove(eid),
            final(self).spec_node_of() == old(self).spec_node_of().remove(eid),
            final(self).spec_hierarchy() == old(self).spec_hierarchy(),
            final(self).spec_entity_of_node() == old(self).spec_entity_of_node(),
            final(self).spec_allocator()@ == old(self).spec_allocator()@.remove(old(self).spec_entities()[eid]),
            forall|o: EntityID| o != eid && #[trigger] old(self).spec_entities().contains_key(o) ==> final(self).entity(o) == old(self).entity(o),
            final(self).spec_entities_all() == without(old(self).spec_entities_all(), old(self).spec_entities()[eid]),
            forall|s: int| 0 <= s < STAGE_COUNT ==> #[trigger] final(self).spec_stage_entities(s) == without(old(self).spec_stage_entities(s), old(self).spec_entities()[eid]),
            final(self).spec_gs_len() == old(self).spec_gs_len(),
            forall|g: GlobalSystemID| g < old(self).spec_gs_len() ==> #[trigger] final(self).spec_gs_entities(g as int) == without(old(self).spec_gs_entities(g as int), old(self).spec_entities()[eid]),
            final(self).spec_gs_loaded() == old(self).spec_gs_loaded(),
            final(self).spec_gs_creation_queue() == old(self).spec_gs_creation_queue(),
            exists|sys: Seq<GlobalSystemID>| sorted_elements(old(self).entity(eid).spec_global_systems(), sys)
                && final(self).spec_gs_deletion_queue() == old(self).spec_gs_deletion_queue() + sys.filter(
                |g: GlobalSystemID| old(self).spec_gs_count()[g as int] == 1
                    && old(self).spec_gs_lifetimes()[g as int] == GlobalSystemLifetime::WhenRequired,
            ),
            forall|g: GlobalSystemID| g < old(self).spec_gs_len() ==> #[trigger] final(self).spec_gs_count()[g as int] == if old(self).entity(eid).spec_global_systems().contains(g) {
                old(self).spec_gs_count()[g as int] - 1
            } else {
                old(self).spec_gs_count()[g as int] as int
            },
            final(self).spec_id() == old(self).spec_id(),
            final(self).spec_gs_lifetimes() == old(self).spec_gs_lifetimes(),
            old(self).gs_covered() ==> final(self).gs_covered(),
    {
        let ghost old_self = *self;
        let ptr = match self.entities.get(&eid) {
            Some(p) => *p,
            None => {
                proof {
                    assert(false);
                }
                return;
            },
        };
        proof {
            assert(old_self.entity_ok(eid));
        }
        let gs = sorted_system_ids(self.allocator.get(&ptr).get_global_systems());
        let ghost e = old_self.entity(eid);
        proof {
            lemma_strictly_sorted_no_duplicates(gs@);
            assert forall|g: GlobalSystemID| #[trigger] gs@.contains(g) implies g < self.spec_gs_len()
                && self.spec_gs_count()[g as int] > 0 by {
                assert(e.spec_global_systems().contains(g));
                assert(old_self.spec_gs_count()[g as int] == old_self.users(g).len());
                old_self.spec_entities().dom().lemma_len_filter(|o: EntityID| old_self.entity(o).spec_global_systems().contains(g));
                assert(old_self.users(g).contains(eid));
                vstd::set_lib::lemma_set_empty_equivalency_len(old_self.users(g));
            }
        }
        self.release_global_systems(&gs, ptr);
        let ghost after_gs = *self;
        remove_all(&mut self.entities_all, ptr);
        let mut s: usize = 0;
        while s < STAGE_COUNT
            invariant
                s <= STAGE_COUNT,
                self.entities_stages@.len() == STAGE_COUNT,
                forall|t: int| 0 <= t < s ==> #[trigger] self.spec_stage_entities(t) == without(old_self.spec_stage_entities(t), ptr),
                forall|t: int| s <= t < STAGE_COUNT ==> #[trigger] self.spec_stage_entities(t) == old_self.spec_stage_entities(t),
                self.entities == old_self.entities,
                self.allocator == old_self.allocator,
                self.hierarchy == old_self.hierarchy,
                self.node_of == old_self.node_of,
                self.entity_of_node == old_self.entity_of_node,
                self.entities_all@ == without(old_self.entities_all@, ptr),
                self.global_systems_count == after_gs.global_systems_count,
                self.global_systems_loaded == after_gs.global_systems_loaded,
                self.gs_creation_queue == after_gs.gs_creation_queue,
                self.gs_deletion_queue == after_gs.gs_deletion_queue,
                self.gs_lifetimes == after_gs.gs_lifetimes,
                self.gs_entity_map == after_gs.gs_entity_map,
                self.id == old_self.id,
            decreases STAGE_COUNT - s,
        {
            let ghost pre = *self;
            remove_from_row(&mut self.entities_stages, s, ptr);
            proof {
                assert forall|t: int| 0 <= t < STAGE_COUNT && t != s implies #[trigger] self.spec_stage_entities(t) == pre.spec_stage_entities(t) by {
                    assert(self.entities_stages@[t] == pre.entities_stages@[t]);
                }
                assert forall|t: int| 0 <= t < s + 1 implies #[trigger] self.spec_stage_entities(t) == without(old_self.spec_stage_entities(t), ptr) by {
                    if t < s {
                        assert(pre.spec_stage_entities(t) == without(old_self.spec_stage_entities(t), ptr));
                    } else {
                        assert(pre.spec_stage_entities(t) == old_self.spec_stage_entities(t));
                    }
                }
                assert forall|t: int| s + 1 <= t < STAGE_COUNT implies #[trigger] self.spec_stage_entities(t) == old_self.spec_stage_entities(t) by {
                    assert(pre.spec_stage_entities(t) == old_self.spec_stage_entities(t));
                }
            }
            s = s + 1;
        }
        let ghost st = *self;
        self.entities.remove(&eid);
        self.node_of.remove(&eid);
        self.allocator.free(&ptr);
        proof {
            assert(sorted_elements(e.spec_global_systems(), gs@));
            assert forall|t: int| 0 <= t < STAGE_COUNT implies #[trigger] self.spec_stage_entities(t) == without(old_self.spec_stage_entities(t), ptr) by {
                assert(st.spec_stage_entities(t) == without(old_self.spec_stage_entities(t), ptr));
            }
            assert forall|o: EntityID| o != eid && #[trigger] old_self.spec_entities().contains_key(o) implies self.entity(o) == old_self.entity(o) by {
                assert(old_self.entity_ok(o));
                assert(old_self.spec_entities()[o] != ptr);
            }
            assert forall|g: GlobalSystemID| g < old_self.spec_gs_len() implies #[trigger] self.spec_gs_entities(g as int) == without(old_self.spec_gs_entities(g as int), ptr) by {
                assert(after_gs.spec_gs_entities(g as int) == without(old_self.spec_gs_entities(g as int), ptr));
            }
            assert forall|g: GlobalSystemID| g < self.spec_gs_len() implies #[trigger] self.spec_gs_count()[g as int] == self.users(g).len() by {
                assert(old_self.spec_gs_count()[g as int] == old_self.users(g).len());
                assert(after_gs.spec_gs_count()[g as int] == if gs@.contains(g) {
                    old_self.spec_gs_count()[g as int] - 1
                } else {
                    old_self.spec_gs_count()[g as int] as int
                });
                assert(gs@.contains(g) == e.spec_global_systems().contains(g));
                let f = |o: EntityID| old_self.entity(o).spec_global_systems().contains(g);
                old_self.spec_entities().dom().lemma_len_filter(f);
                assert forall|o: EntityID| #[trigger] self.users(g).contains(o) <==> old_self.users(g).remove(eid).contains(o) by {
                    if o != eid && old_self.spec_entities().contains_key(o) {
                        assert(old_self.entity_ok(o));
                        assert(old_self.spec_entities()[o] != ptr);
                    }
                }
                assert(self.users(g) =~= old_self.users(g).remove(eid));
                if e.spec_global_systems().contains(g) {
                    assert(old_self.users(g).contains(eid));
                } else {
                    assert(!old_self.users(g).contains(eid));
                    assert(old_self.users(g).remove(eid) =~= old_self.users(g));
                }
            }
            assert forall|o: EntityID| #[trigger] self.spec_node_of().contains_key(o) implies self.spec_entities().contains_key(o) by {
                assert(old_self.spec_node_of().contains_key(o));
            }
            assert forall|o: EntityID| #[trigger] self.spec_entities().contains_key(o) implies self.entity_ok(o) by {
                assert(old_self.entity_ok(o));
                assert(old_self.spec_entities()[o] != ptr);
            }
            assert forall|g: GlobalSystemID| g < old_self.spec_gs_len() implies #[trigger] self.spec_gs_count()[g as int] == if e.spec_global_systems().contains(g) {
                old_self.spec_gs_count()[g as int] - 1
            } else {
                old_self.spec_gs_count()[g as int] as int
            } by {
                assert(gs@.contains(g) == e.spec_global_systems().contains(g));
                assert(self.spec_gs_count()[g as int] == after_gs.spec_gs_count()[g as int]);
            }
            if old_self.gs_covered() {
                let last = |g: GlobalSystemID| old_self.spec_gs_count()[g as int] == 1
                    && old_self.spec_gs_lifetimes()[g as int] == GlobalSystemLifetime::WhenRequired;
                assert(self.spec_gs_deletion_queue() == old_self.spec_gs_deletion_queue() + gs@.filter(last));
                assert forall|g: GlobalSystemID| g < self.spec_gs_len() implies #[trigger] self.gs_covers(g) by {
                    assert(old_self.gs_covers(g));
                    assert(gs@.contains(g) == e.spec_global_systems().contains(g));
                    let q0 = old_self.spec_gs_deletion_queue();
                    if gs@.contains(g) && last(g) {
                        let j = choose|j: int| 0 <= j < gs@.len() && gs@[j] == g;
                        gs@.lemma_filter_contains(last, j);
                        let k = choose|k: int| 0 <= k < gs@.filter(last).len() && gs@.filter(last)[k] == g;
                        assert(self.spec_gs_deletion_queue()[q0.len() + k] == g);
                    }
                    if q0.contains(g) {
                        let k = choose|k: int| 0 <= k < q0.len() && q0[k] == g;
                        assert(self.spec_gs_deletion_queue()[k] == g);
                    }
                }
            }
        }
    }
}

impl<D: DataGroupMeta> World<D> {
    /// `p` is not the pointer of any of the first `k` entities of `vs`.
    spec fn kept_after(&self, vs: Seq<EntityID>, k: int, p: EntityPtr) -> bool {
        !(exists|i: int| 0 <= i < k && #[trigger] self.spec_entities()[vs[i]] == p)
    }

    /// The pointers of the entities that destroying `id` destroys.
    pub open spec fn destroyed_ptrs(&self, id: EntityID) -> Set<EntityPtr> {
        self.destroyed_by(id).map(|o: EntityID| self.spec_entities()[o])
    }

    /// The entities that destroying `id` destroys: `id` and, when it is a
    /// spatial entity, every entity of its sub-hierarchy.
    pub open spec fn destroyed_by(&self, id: EntityID) -> Set<EntityID> {
        Set::new(
            |o: EntityID|
                self.spec_entities().contains_key(o) && (o == id || (self.spec_node_of().contains_key(o)
                    && self.spec_node_of().contains_key(id) && self.spec_hierarchy().in_subtree(
                    self.spec_node_of()[o] as int,
                    self.spec_node_of()[id] as int,
                ))),
        )
    }

    /// Destroy an entity and, if it is a spatial entity, its whole
    /// sub-hierarchy, which is detached from its parent first. Returns whether
    /// the entity was in the world; if not, nothing changes.
    pub fn destroy_entity_internal(&mut self, id: EntityID) -> (found: bool)
        requires
            old(self).wf(),
        ensures
            final(self).wf(),
            found == old(self).spec_entities().contains_key(id),
            !found ==> *final(self) == *old(self),
            found ==> final(self).spec_entities().dom() == old(self).spec_entities().dom().difference(old(self).destroyed_by(id)),
            found ==> forall|o: EntityID| #[trigger] old(self).destroyed_by(id).contains(o)
                ==> !final(self).spec_allocator()@.contains_key(old(self).spec_entities()[o]),
            forall|o: EntityID| #[trigger] final(self).spec_entities().contains_key(o) ==> final(self).entity(o) == old(self).entity(o)
                && final(self).spec_entities()[o] == old(self).spec_entities()[o],
            found && old(self).spec_node_of().contains_key(id) ==> final(self).spec_hierarchy().parent_of(old(self).spec_node_of()[id] as int) is None,
            final(self).spec_hierarchy().len() == old(self).spec_hierarchy().len(),
            forall|x: int| 0 <= x < old(self).spec_hierarchy().len() ==> #[trigger] final(self).spec_hierarchy().parent_of(x)
                == if found && old(self).spec_node_of().contains_key(id) && x == old(self).spec_node_of()[id] {
                None
            } else {
                old(self).spec_hierarchy().parent_of(x)
            },
            forall|x: int, y: NodeIndex| 0 <= x < old(self).spec_hierarchy().len() ==> (#[trigger] final(self).spec_hierarchy().children_of(x).contains(y)
                <==> (old(self).spec_hierarchy().children_of(x).contains(y)
                && !(found && old(self).spec_node_of().contains_key(id) && y == old(self).spec_node_of()[id]))),
            forall|s: int| 0 <= s < STAGE_COUNT ==> #[trigger] final(self).spec_stage_entities(s) == old(self).spec_stage_entities(s).filter(
                |p: EntityPtr| !old(self).destroyed_ptrs(id).contains(p)),
            final(self).spec_entities_all() == old(self).spec_entities_all().filter(
                |p: EntityPtr| !old(self).destroyed_ptrs(id).contains(p)),
            final(self).spec_gs_loaded() == old(self).spec_gs_loaded(),
            final(self).spec_gs_creation_queue() == old(self).spec_gs_creation_queue(),
            final(self).spec_gs_lifetimes() == old(self).spec_gs_lifetimes(),
            old(self).gs_covered() ==> final(self).gs_covered(),
    {
        if !self.entities.contains_key(&id) {
            proof {
                assert(!old(self).spec_entities().contains_key(id));
                assert(old(self).destroyed_by(id) =~= Set::empty());
                assert(old(self).destroyed_ptrs(id) =~= Set::empty());
                assert forall|s: int| 0 <= s < STAGE_COUNT implies #[trigger] self.spec_stage_entities(s) == self.spec_stage_entities(s).filter(
                    |p: EntityPtr| !self.destroyed_ptrs(id).contains(p)) by {
                    lemma_filter_keeps_every(self.spec_stage_entities(s), |p: EntityPtr| !self.destroyed_ptrs(id).contains(p));
                }
                lemma_filter_keeps_every(self.spec_entities_all(), |p: EntityPtr| !self.destroyed_ptrs(id).contains(p));
            }
            return false;
        }
        let ghost old_self = *self;
        let mut victims: Vec<EntityID> = Vec::new();
        match self.node_of.get(&id) {
            Some(n) => {
                let n = *n;
                proof {
                    assert(old_self.entity_ok(id));
                }
                self.hierarchy.clear_parent(n);
                let ghost h1 = self.hierarchy;
                proof {
                    assert forall|o: EntityID| #[trigger] self.spec_entities().contains_key(o) implies self.entity_ok(o) by {
                        assert(old_self.entity_ok(o));
                    }
                    assert forall|g: GlobalSystemID| g < self.spec_gs_len() implies #[trigger] self.spec_gs_count()[g as int] == self.users(g).len() by {
                        assert(old_self.spec_gs_count()[g as int] == old_self.users(g).len());
                        assert(self.users(g) =~= old_self.users(g));
                    }
                    assert(self.wf());
                    assert forall|y: int| 0 <= y < h1.len() implies #[trigger] h1.in_subtree(y, n as int) == old_self.spec_hierarchy().in_subtree(y, n as int) by {
                        if !old_self.spec_hierarchy().in_subtree(y, n as int) {
                            assert(h1.ancestors(y) == old_self.spec_hierarchy().ancestors(y));
                        }
                    }
                }
                let sub = self.hierarchy.collect_subtree(n);
                let mut j: usize = 0;
                while j < sub.len()
                    invariant
                        j <= sub@.len(),
                        n < h1.len(),
                        self.hierarchy == h1,
                        h1.len() == old_self.spec_hierarchy().len(),
                        self.node_of == old_self.node_of,
                        self.entity_of_node == old_self.entity_of_node,
                        self.entities == old_self.entities,
                        old_self.wf(),
                        old_self.spec_node_of().contains_key(id),
                        old_self.spec_node_of()[id] == n,
                        forall|y: NodeIndex| sub@.contains(y) <==> h1.subtree(n as int).contains(y as int),
                        forall|a: int, b: int| 0 <= a < b < sub@.len() ==> sub@[a] < sub@[b],
                        self.wf(),
                        forall|y: int| 0 <= y < h1.len() ==> #[trigger] h1.in_subtree(y, n as int) == old_self.spec_hierarchy().in_subtree(y, n as int),
                        victims@.no_duplicates(),
                        forall|o: EntityID| victims@.contains(o) <==> (exists|i: int| 0 <= i < j && #[trigger] sub@[i] != n
                            && old_self.spec_node_of().contains_key(o) && old_self.spec_node_of()[o] == sub@[i]),
                    decreases sub@.len() - j,
                {
                    let m = sub[j];
                    proof {
                        assert(sub@.contains(m));
                    }
                    if m != n {
                        let eid = self.entity_of_node[m];
                        let matches = match self.node_of.get(&eid) {
                            Some(k) => *k == m,
                            None => false,
                        };
                        if matches {
                            proof {
                                assert(old_self.spec_node_of().contains_key(eid) && old_self.spec_node_of()[eid] == m);
                                assert(!victims@.contains(eid)) by {
                                    if victims@.contains(eid) {
                                        let i = choose|i: int| 0 <= i < j && #[trigger] sub@[i] != n
                                            && old_self.spec_node_of().contains_key(eid) && old_self.spec_node_of()[eid] == sub@[i];
                                        assert(sub@[i] < sub@[j as int]);
                                    }
                                }
                            }
                            let ghost v0 = victims@;
                            victims.push(eid);
                            proof {
                                assert forall|o: EntityID| victims@.contains(o) <==> (exists|i: int| 0 <= i < j + 1 && #[trigger] sub@[i] != n
                                    && old_self.spec_node_of().contains_key(o) && old_self.spec_node_of()[o] == sub@[i]) by {
                                    if victims@.contains(o) {
                                        if o != eid {
                                            let k = choose|k: int| 0 <= k < victims@.len() && victims@[k] == o;
                                            assert(v0[k] == o);
                                            assert(v0.contains(o));
                                            let i = choose|i: int| 0 <= i < j && #[trigger] sub@[i] != n
                                                && old_self.spec_node_of().contains_key(o) && old_self.spec_node_of()[o] == sub@[i];
                                            assert(0 <= i < j + 1 && sub@[i] != n
                                                && old_self.spec_node_of().contains_key(o) && old_self.spec_node_of()[o] == sub@[i]);
                                        } else {
                                            assert(0 <= j < j + 1 && sub@[j as int] != n
                                                && old_self.spec_node_of().contains_key(o) && old_self.spec_node_of()[o] == sub@[j as int]);
                                        }
                                    }
                                    if exists|i: int| 0 <= i < j + 1 && #[trigger] sub@[i] != n
                                        && old_self.spec_node_of().contains_key(o) && old_self.spec_node_of()[o] == sub@[i] {
                                        let i = choose|i: int| 0 <= i < j + 1 && #[trigger] sub@[i] != n
                                            && old_self.spec_node_of().contains_key(o) && old_self.spec_node_of()[o] == sub@[i];
                                        if i == j {
                                            assert(old_self.entity_ok(o));
                                            assert(old_self.entity_ok(eid));
                                            assert(o == eid);
                                            assert(victims@[v0.len() as int] == eid);
                                        } else {
                                            assert(v0.contains(o));
                                            let k = choose|k: int| 0 <= k < v0.len() && v0[k] == o;
                                            assert(victims@[k] == o);
                                        }
                                    }
                                }
                            }
                        } else {
                            proof {
                                assert forall|o: EntityID| victims@.contains(o) <==> (exists|i: int| 0 <= i < j + 1 && #[trigger] sub@[i] != n
                                    && old_self.spec_node_of().contains_key(o) && old_self.spec_node_of()[o] == sub@[i]) by {
                                    if exists|i: int| 0 <= i < j + 1 && #[trigger] sub@[i] != n
                                        && old_self.spec_node_of().contains_key(o) && old_self.spec_node_of()[o] == sub@[i] {
                                        let i = choose|i: int| 0 <= i < j + 1 && #[trigger] sub@[i] != n
                                            && old_self.spec_node_of().contains_key(o) && old_self.spec_node_of()[o] == sub@[i];
                                        if i == j {
                                            assert(old_self.entity_ok(o));
                                            assert(o == eid);
                                        }
                                    }
                                }
                            }
                        }
                    }
                    j = j + 1;
                }
                proof {
                    assert forall|o: EntityID| victims@.contains(o) <==> (o != id && old_self.destroyed_by(id).contains(o)) by {
                        if victims@.contains(o) {
                            let i = choose|i: int| 0 <= i < j && #[trigger] sub@[i] != n
                                && old_self.spec_node_of().contains_key(o) && old_self.spec_node_of()[o] == sub@[i];
                            assert(sub@.contains(sub@[i]));
                            assert(old_self.entity_ok(o));
                            if o == id {
                                assert(sub@[i] == n);
                            }
                        }
                        if o != id && old_self.destroyed_by(id).contains(o) {
                            let m = old_self.spec_node_of()[o];
                            assert(old_self.entity_ok(o));
                            assert(h1.subtree(n as int).contains(m as int));
                            assert(sub@.contains(m));
                            let i = choose|i: int| 0 <= i < sub@.len() && sub@[i] == m;
                            if m == n {
                                assert(old_self.entity_ok(id));
                                assert(o == id);
                            }
                            assert(sub@[i] != n && old_self.spec_node_of().contains_key(o) && old_self.spec_node_of()[o] == sub@[i]);
                        }
                    }
                }
            },
            None => {
                proof {
                    assert forall|o: EntityID| victims@.contains(o) <==> (o != id && old_self.destroyed_by(id).contains(o)) by {}
                }
            },
        }
        proof {
            assert(!victims@.contains(id));
        }
        let ghost v0 = victims@;
        victims.push(id);
        proof {
            assert forall|o: EntityID| victims@.contains(o) <==> old_self.destroyed_by(id).contains(o) by {
                if victims@.contains(o) && o != id {
                    let k = choose|k: int| 0 <= k < victims@.len() && victims@[k] == o;
                    assert(v0[k] == o);
                }
                if v0.contains(o) {
                    let k = choose|k: int| 0 <= k < v0.len() && v0[k] == o;
                    assert(victims@[k] == o);
                }
                if o == id {
                    assert(victims@[v0.len() as int] == id);
                }
            }
            assert(victims@.no_duplicates());
        }
        let ghost h_after = self.hierarchy;
        proof {
            let oh = old_self.spec_hierarchy();
            assert forall|x: int| 0 <= x < oh.len() implies #[trigger] h_after.parent_of(x)
                == if old_self.spec_node_of().contains_key(id) && x == old_self.spec_node_of()[id] {
                None
            } else {
                oh.parent_of(x)
            } by {}
            assert forall|x: int, y: NodeIndex| 0 <= x < oh.len() implies (#[trigger] h_after.children_of(x).contains(y)
                <==> (oh.children_of(x).contains(y)
                && !(old_self.spec_node_of().contains_key(id) && y == old_self.spec_node_of()[id]))) by {
                if old_self.spec_node_of().contains_key(id) {
                    let n = old_self.spec_node_of()[id];
                    assert(old_self.entity_ok(id));
                    if oh.parent_of(n as int) != Some(x as NodeIndex) && y == n && oh.children_of(x).contains(n) {
                        assert(oh.node_ok(x));
                        let j = choose|j: int| 0 <= j < oh.children_of(x).len() && oh.children_of(x)[j] == n;
                        assert(oh.parent_of(oh.children_of(x)[j] as int) == Some(x as NodeIndex));
                    }
                }
            }
            assert forall|s: int| 0 <= s < STAGE_COUNT implies #[trigger] self.spec_stage_entities(s) == old_self.spec_stage_entities(s).filter(
                |p: EntityPtr| old_self.kept_after(victims@, 0, p)) by {
                lemma_filter_keeps_every(old_self.spec_stage_entities(s), |p: EntityPtr| old_self.kept_after(victims@, 0, p));
            }
            lemma_filter_keeps_every(old_self.spec_entities_all(), |p: EntityPtr| old_self.kept_after(victims@, 0, p));
            if old_self.gs_covered() {
                assert forall|g: GlobalSystemID| g < self.spec_gs_len() implies #[trigger] self.gs_covers(g) by {
                    assert(old_self.gs_covers(g));
                }
            }
        }
        let mut k: usize = 0;
        while k < victims.len()
            invariant
                k <= victims@.len(),
                self.wf(),
                old_self.gs_covered() ==> self.gs_covered(),
                victims@.no_duplicates(),
                forall|o: EntityID| victims@.contains(o) <==> old_self.destroyed_by(id).contains(o),
                forall|o: EntityID| #[trigger] self.spec_entities().contains_key(o) <==> (old_self.spec_entities().contains_key(o)
                    && !victims@.take(k as int).contains(o)),
                forall|o: EntityID| #[trigger] self.spec_entities().contains_key(o) ==> self.spec_entities()[o] == old_self.spec_entities()[o]
                    && self.entity(o) == old_self.entity(o),
                forall|i: int| 0 <= i < k ==> !self.spec_allocator()@.contains_key(old_self.spec_entities()[#[trigger] victims@[i]]),
                self.hierarchy == h_after,
                h_after.len() == old_self.spec_hierarchy().len(),
                self.spec_gs_loaded() == old_self.spec_gs_loaded(),
                self.spec_gs_lifetimes() == old_self.spec_gs_lifetimes(),
                self.spec_gs_creation_queue() == old_self.spec_gs_creation_queue(),
                forall|s: int| 0 <= s < STAGE_COUNT ==> #[trigger] self.spec_stage_entities(s) == old_self.spec_stage_entities(s).filter(
                    |p: EntityPtr| old_self.kept_after(victims@, k as int, p)),
                self.spec_entities_all() == old_self.spec_entities_all().filter(|p: EntityPtr| old_self.kept_after(victims@, k as int, p)),
            decreases victims@.len() - k,
        {
            let v = victims[k];
            proof {
                assert(victims@.contains(v));
                assert(old_self.destroyed_by(id).contains(v));
                assert(!victims@.take(k as int).contains(v)) by {
                    if victims@.take(k as int).contains(v) {
                        let i = choose|i: int| 0 <= i < k && #[trigger] victims@.take(k as int)[i] == v;
                        assert(victims@[i] == victims@[k as int]);
                    }
                }
                assert(self.spec_entities().contains_key(v));
            }
            let ghost pre = *self;
            self.release_entity(v);
            proof {
                let pv = old_self.spec_entities()[v];
                assert(pre.spec_entities()[v] == pv);
                let pk = |p: EntityPtr| old_self.kept_after(victims@, k as int, p);
                let pk1 = |p: EntityPtr| old_self.kept_after(victims@, k + 1, p);
                assert forall|y: EntityPtr| #[trigger] pk1(y) == (pk(y) && y != pv) by {
                    if !pk1(y) {
                        let i = choose|i: int| 0 <= i < k + 1 && #[trigger] old_self.spec_entities()[victims@[i]] == y;
                        if i < k {
                            assert(!pk(y));
                        }
                    }
                    if !pk(y) {
                        let i = choose|i: int| 0 <= i < k && #[trigger] old_self.spec_entities()[victims@[i]] == y;
                        assert(!pk1(y));
                    }
                    if y == pv {
                        assert(old_self.spec_entities()[victims@[k as int]] == y);
                    }
                }
                assert forall|s: int| 0 <= s < STAGE_COUNT implies #[trigger] self.spec_stage_entities(s) == old_self.spec_stage_entities(s).filter(pk1) by {
                    lemma_filter_without(old_self.spec_stage_entities(s), pk, pv, pk1);
                }
                lemma_filter_without(old_self.spec_entities_all(), pk, pv, pk1);
                assert forall|o: EntityID| #[trigger] self.spec_entities().contains_key(o) <==> (old_self.spec_entities().contains_key(o)
                    && !victims@.take(k + 1).contains(o)) by {
                    assert(victims@.take(k + 1) =~= victims@.take(k as int).push(v));
                    if victims@.take(k + 1).contains(o) && o != v {
                        let i = choose|i: int| 0 <= i < k + 1 && #[trigger] victims@.take(k + 1)[i] == o;
                        assert(victims@.take(k as int)[i] == o);
                    }
                    if victims@.take(k as int).contains(o) {
                        let i = choose|i: int| 0 <= i < k && #[trigger] victims@.take(k as int)[i] == o;
                        assert(victims@.take(k + 1)[i] == o);
                    }
                    if o == v {
                        assert(victims@.take(k + 1)[k as int] == v);
                    }
                }
                assert forall|i: int| 0 <= i < k + 1 implies !self.spec_allocator()@.contains_key(old_self.spec_entities()[#[trigger] victims@[i]]) by {
                    if i < k {
                        assert(!pre.spec_allocator()@.contains_key(old_self.spec_entities()[victims@[i]]));
                    } else {
                        assert(pre.spec_entities()[v] == old_self.spec_entities()[v]);
                    }
                }
            }
            k = k + 1;
        }
        proof {
            assert(victims@.take(k as int) =~= victims@);
            assert(self.spec_entities().dom() =~= old_self.spec_entities().dom().difference(old_self.destroyed_by(id))) by {
                assert forall|o: EntityID| self.spec_entities().dom().contains(o) <==> old_self.spec_entities().dom().difference(old_self.destroyed_by(id)).contains(o) by {
                    assert(self.spec_entities().contains_key(o) == (old_self.spec_entities().contains_key(o) && !victims@.contains(o)));
                }
            }
            assert forall|o: EntityID| #[trigger] old_self.destroyed_by(id).contains(o) implies !self.spec_allocator()@.contains_key(old_self.spec_entities()[o]) by {
                assert(victims@.contains(o));
                let i = choose|i: int| 0 <= i < victims@.len() && victims@[i] == o;
            }
            let dp = old_self.destroyed_ptrs(id);
            assert((|p: EntityPtr| old_self.kept_after(victims@, k as int, p)) =~= (|p: EntityPtr| !dp.contains(p))) by {
                assert forall|p: EntityPtr| old_self.kept_after(victims@, k as int, p) == !dp.contains(p) by {
                    if !old_self.kept_after(victims@, k as int, p) {
                        let i = choose|i: int| 0 <= i < k && #[trigger] old_self.spec_entities()[victims@[i]] == p;
                        assert(victims@.contains(victims@[i]));
                        assert(old_self.destroyed_by(id).contains(victims@[i]));
                    }
                    if dp.contains(p) {
                        let o = choose|o: EntityID| old_self.destroyed_by(id).contains(o) && old_self.spec_entities()[o] == p;
                        assert(victims@.contains(o));
                        let i = choose|i: int| 0 <= i < victims@.len() && victims@[i] == o;
                        assert(old_self.spec_entities()[victims@[i]] == p);
                    }
                }
            }
        }
        true
    }
}

impl<D: DataGroupMeta> World<D> {
    /// How many rounds of its calls of stage `s` running the entry `p` of the
    /// stage's list gives entity `o`: one when `p` is the pointer of `o` and
    /// `o` is not spatial, or `p` is the pointer of a spatial entity at the
    /// root of a hierarchy scheduled in the stage that reaches the node of
    /// `o`; none otherwise.
    pub open spec fn stage_visit(&self, p: EntityPtr, s: StageID, o: EntityID) -> nat {
        if (self.spec_entities().contains_key(o) && self.spec_entities()[o] == p && !self.spec_node_of().contains_key(o))
            || (exists|r: EntityID| #[trigger] self.spec_entities().contains_key(r) && self.spec_entities()[r] == p
                && self.spec_node_of().contains_key(r)
                && Self::node_runs_in(self.spec_hierarchy(), self.spec_node_of()[r] as int, s as int)
                && self.spec_node_of().contains_key(o)
                && self.spec_hierarchy().reaches_in_stage(self.spec_node_of()[r] as int, self.spec_node_of()[o] as int, s as int)) {
            1
        } else {
            0
        }
    }

    /// How many rounds of its calls of stage `s` the first `k` entries of
    /// `list` give entity `o`.
    pub open spec fn stage_visits(&self, list: Seq<EntityPtr>, k: nat, s: StageID, o: EntityID) -> nat
        decreases k,
    {
        if k == 0 {
            0
        } else {
            self.stage_visits(list, (k - 1) as nat, s, o) + self.stage_visit(list[k - 1], s, o)
        }
    }

    /// Whether the hierarchy of node `x` is scheduled in stage `s`: `x` is a
    /// root and some node below it runs in the stage.
    pub open spec fn node_runs_in(h: SpatialHierarchy, x: int, s: int) -> bool {
        h.parent_of(x) is None && h.subtree_in_stage(x, s).len() > 0
    }

    /// Make `parent_id` the parent of `entity_id`, both spatial entities of
    /// this world, and schedule the root of the parent's hierarchy in the
    /// stages it now runs in and the parent did not run in before.
    pub fn set_entity_parent_internal(&mut self, entity_id: EntityID, parent_id: EntityID)
        requires
            old(self).wf(),
            old(self).spec_node_of().contains_key(entity_id),
            old(self).spec_node_of().contains_key(parent_id),
            !old(self).spec_hierarchy().in_subtree(
                old(self).spec_node_of()[parent_id] as int,
                old(self).spec_node_of()[entity_id] as int,
            ),
        ensures
            final(self).wf(),
            final(self).spec_entities() == old(self).spec_entities(),
            final(self).spec_node_of() == old(self).spec_node_of(),
            final(self).spec_allocator() == old(self).spec_allocator(),
            final(self).spec_hierarchy().len() == old(self).spec_hierarchy().len(),
            forall|x: int| 0 <= x < old(self).spec_hierarchy().len() ==> #[trigger] final(self).spec_hierarchy().parent_of(x)
                == if x == old(self).spec_node_of()[entity_id] {
                Some(old(self).spec_node_of()[parent_id])
            } else {
                old(self).spec_hierarchy().parent_of(x)
            },
            ({
                let root = final(self).spec_hierarchy().chain_of(old(self).spec_node_of()[parent_id] as int).last();
                let reid = final(self).spec_entity_of_node()[root as int];
                let pn = old(self).spec_node_of()[parent_id] as int;
                let live = final(self).spec_node_of().contains_key(reid) && final(self).spec_node_of()[reid] == root;
                forall|s: int| 0 <= s < STAGE_COUNT ==> #[trigger] final(self).spec_stage_entities(s) == if live
                    && Self::node_runs_in(final(self).spec_hierarchy(), root as int, s)
                    && !Self::node_runs_in(old(self).spec_hierarchy(), pn, s) {
                    old(self).spec_stage_entities(s).push(final(self).spec_entities()[reid])
                } else {
                    old(self).spec_stage_entities(s)
                }
            }),
            final(self).spec_entities_all() == old(self).spec_entities_all(),
            final(self).spec_gs_count() == old(self).spec_gs_count(),
            final(self).spec_gs_loaded() == old(self).spec_gs_loaded(),
            final(self).spec_gs_creation_queue() == old(self).spec_gs_creation_queue(),
            final(self).spec_gs_deletion_queue() == old(self).spec_gs_deletion_queue(),
            final(self).spec_gs_lifetimes() == old(self).spec_gs_lifetimes(),
            old(self).gs_covered() ==> final(self).gs_covered(),
    {
        let ghost old_self = *self;
        let pn = match self.node_of.get(&parent_id) {
            Some(n) => *n,
            None => {
                proof {
                    assert(false);
                }
                return;
            },
        };
        let cn = match self.node_of.get(&entity_id) {
            Some(n) => *n,
            None => {
                proof {
                    assert(false);
                }
                return;
            },
        };
        proof {
            assert(old_self.entity_ok(parent_id));
            assert(old_self.entity_ok(entity_id));
        }
        let mut old_run: Vec<bool> = Vec::new();
        let mut s: usize = 0;
        while s < STAGE_COUNT
            invariant
                s <= STAGE_COUNT,
                self.hierarchy.wf(),
                pn < self.hierarchy.len(),
                *self == old_self,
                old_run@.len() == s,
                forall|t: int| 0 <= t < s ==> #[trigger] old_run@[t] == Self::node_runs_in(old_self.spec_hierarchy(), pn as int, t),
            decreases STAGE_COUNT - s,
        {
            old_run.push(self.hierarchy.should_run_in_stage(pn, s as StageID));
            s = s + 1;
        }
        self.hierarchy.set_parent(cn, pn);
        let root = self.hierarchy.get_root(pn);
        let reid = self.entity_of_node[root];
        let ghost mid = *self;
        proof {
            assert forall|o: EntityID| #[trigger] self.spec_entities().contains_key(o) implies self.entity_ok(o) by {
                assert(old_self.entity_ok(o));
            }
            assert forall|g: GlobalSystemID| g < self.spec_gs_len() implies #[trigger] self.spec_gs_count()[g as int] == self.users(g).len() by {
                assert(old_self.spec_gs_count()[g as int] == old_self.users(g).len());
                assert(self.users(g) =~= old_self.users(g));
            }
            assert forall|o: EntityID| #[trigger] self.spec_node_of().contains_key(o) implies self.spec_entities().contains_key(o) by {
                assert(old_self.spec_node_of().contains_key(o));
            }
            assert(self.wf());
        }
        let live = match self.node_of.get(&reid) {
            Some(rn) => *rn == root,
            None => false,
        };
        if live {
            let rp = match self.entities.get(&reid) {
                Some(p) => *p,
                None => {
                    proof {
                        assert(false);
                    }
                    return;
                },
            };
            let mut s: usize = 0;
            while s < STAGE_COUNT
                invariant
                    s <= STAGE_COUNT,
                    self.hierarchy.wf(),
                    root < self.hierarchy.len(),
                    self.hierarchy == mid.hierarchy,
                    self.entities == mid.entities,
                    self.allocator == mid.allocator,
                    self.node_of == mid.node_of,
                    self.entity_of_node == mid.entity_of_node,
                    self.entities_all == mid.entities_all,
                    self.global_systems_count == mid.global_systems_count,
                    self.global_systems_loaded == mid.global_systems_loaded,
                    self.gs_creation_queue == mid.gs_creation_queue,
                    self.gs_deletion_queue == mid.gs_deletion_queue,
                    self.gs_lifetimes == mid.gs_lifetimes,
                    self.gs_entity_map == mid.gs_entity_map,
                    self.id == mid.id,
                    self.entities_stages@.len() == STAGE_COUNT,
                    old_run@.len() == STAGE_COUNT,
                    forall|t: int| 0 <= t < STAGE_COUNT ==> #[trigger] old_run@[t] == Self::node_runs_in(old_self.spec_hierarchy(), pn as int, t),
                    forall|t: int| 0 <= t < s ==> #[trigger] self.spec_stage_entities(t) == if Self::node_runs_in(mid.spec_hierarchy(), root as int, t)
                        && !Self::node_runs_in(old_self.spec_hierarchy(), pn as int, t) {
                        old_self.spec_stage_entities(t).push(rp)
                    } else {
                        old_self.spec_stage_entities(t)
                    },
                    forall|t: int| s <= t < STAGE_COUNT ==> #[trigger] self.spec_stage_entities(t) == old_self.spec_stage_entities(t),
                decreases STAGE_COUNT - s,
            {
                let ghost pre = *self;
                if self.hierarchy.should_run_in_stage(root, s as StageID) && !old_run[s] {
                    push_to_row(&mut self.entities_stages, s, rp);
                }
                proof {
                    assert forall|t: int| 0 <= t < STAGE_COUNT && t != s implies #[trigger] self.spec_stage_entities(t) == pre.spec_stage_entities(t) by {
                        assert(self.entities_stages@[t] == pre.entities_stages@[t]);
                    }
                    assert forall|t: int| 0 <= t < s + 1 implies #[trigger] self.spec_stage_entities(t) == if Self::node_runs_in(mid.spec_hierarchy(), root as int, t)
                        && !Self::node_runs_in(old_self.spec_hierarchy(), pn as int, t) {
                        old_self.spec_stage_entities(t).push(rp)
                    } else {
                        old_self.spec_stage_entities(t)
                    } by {
                        if t < s {
                            assert(pre.spec_stage_entities(t) == if Self::node_runs_in(mid.spec_hierarchy(), root as int, t)
                                && !Self::node_runs_in(old_self.spec_hierarchy(), pn as int, t) {
                                old_self.spec_stage_entities(t).push(rp)
                            } else {
                                old_self.spec_stage_entities(t)
                            });
                        } else {
                            assert(pre.spec_stage_entities(t) == old_self.spec_stage_entities(t));
                        }
                    }
                    assert forall|t: int| s + 1 <= t < STAGE_COUNT implies #[trigger] self.spec_stage_entities(t) == old_self.spec_stage_entities(t) by {
                        assert(pre.spec_stage_entities(t) == old_self.spec_stage_entities(t));
                    }
                }
                s = s + 1;
            }
        }
        proof {
            if live {
                Self::lemma_wf_only_stages_changed(&mid, self);
            }
            if old_self.gs_covered() {
                assert forall|g: GlobalSystemID| g < self.spec_gs_len() implies #[trigger] self.gs_covers(g) by {
                    assert(old_self.gs_covers(g));
                }
            }
        }
    }

    /// Changing only the per-stage lists of a well formed world, keeping
    /// their number, keeps it well formed.
    proof fn lemma_wf_only_stages_changed(a: &Self, b: &Self)
        requires
            a.wf(),
            b.entities == a.entities,
            b.allocator == a.allocator,
            b.hierarchy == a.hierarchy,
            b.node_of == a.node_of,
            b.entity_of_node == a.entity_of_node,
            b.global_systems_count == a.global_systems_count,
            b.global_systems_loaded == a.global_systems_loaded,
            b.gs_entity_map == a.gs_entity_map,
            b.gs_lifetimes == a.gs_lifetimes,
            b.entities_stages@.len() == STAGE_COUNT,
        ensures
            b.wf(),
    {
        assert(b.spec_entities() == a.spec_entities());
        assert(b.spec_node_of() == a.spec_node_of());
        assert forall|o: EntityID| #[trigger] b.spec_entities().contains_key(o) implies b.entity_ok(o) by {
            assert(a.entity_ok(o));
        }
        assert forall|o: EntityID| #[trigger] b.spec_node_of().contains_key(o) implies b.spec_entities().contains_key(o) by {
            assert(a.spec_node_of().contains_key(o));
        }
        assert forall|g: GlobalSystemID| g < b.spec_gs_len() implies #[trigger] b.spec_gs_count()[g as int] == b.users(g).len() by {
            assert(a.spec_gs_count()[g as int] == a.users(g).len());
            assert(b.users(g) =~= a.users(g));
        }
    }
}


/// Whether a global system with `count` requiring entities and lifetime `l`
/// may be loaded (`v`) or unloaded (`!v`) by a queued command: an always
/// live one is never unloaded, one loaded when required is loaded only while
/// some entity requires it, and nothing is unloaded while an entity requires
/// it.
pub open spec fn gs_change_allowed(v: bool, count: usize, l: GlobalSystemLifetime) -> bool {
    if v {
        l != GlobalSystemLifetime::WhenRequired || count > 0
    } else {
        l != GlobalSystemLifetime::AlwaysLive && count == 0
    }
}

fn change_allowed(v: bool, count: usize, l: GlobalSystemLifetime) -> (r: bool)
    ensures
        r == gs_change_allowed(v, count, l),
{
    match l {
        GlobalSystemLifetime::AlwaysLive => v,
        GlobalSystemLifetime::WhenRequired => if v { count > 0 } else { count == 0 },
        GlobalSystemLifetime::Manual => v || count == 0,
    }
}

/// Set `flags[g]` to `v` for each `g` of `ids` in range that may change that
/// way (`gs_change_allowed`); gives back, in order and without repetition,
/// those whose flag changed.
fn set_flags(flags: &mut Vec<bool>, ids: &Vec<u32>, v: bool, counts: &Vec<usize>, lifetimes: &Vec<GlobalSystemLifetime>) -> (changed: Vec<u32>)
    requires
        old(flags)@.len() == counts@.len(),
        lifetimes@.len() == counts@.len(),
    ensures
        final(flags)@.len() == old(flags)@.len(),
        forall|g: u32| (g as int) < old(flags)@.len() ==> #[trigger] final(flags)@[g as int] == if ids@.contains(g) && gs_change_allowed(v, counts@[g as int], lifetimes@[g as int]) {
            v
        } else {
            old(flags)@[g as int]
        },
        changed@.no_duplicates(),
        forall|g: u32| #[trigger] changed@.contains(g) <==> ((g as int) < old(flags)@.len() && ids@.contains(g) && gs_change_allowed(v, counts@[g as int], lifetimes@[g as int]) && old(flags)@[g as int] != v),
{
    let ghost f0 = flags@;
    let mut changed: Vec<u32> = Vec::new();
    let mut k: usize = 0;
    while k < ids.len()
        invariant
            k <= ids@.len(),
            flags@.len() == f0.len(),
            counts@.len() == f0.len(),
            lifetimes@.len() == f0.len(),
            forall|g: u32| (g as int) < f0.len() ==> #[trigger] flags@[g as int] == if ids@.take(k as int).contains(g) && gs_change_allowed(v, counts@[g as int], lifetimes@[g as int]) {
                v
            } else {
                f0[g as int]
            },
            changed@.no_duplicates(),
            forall|g: u32| #[trigger] changed@.contains(g) <==> ((g as int) < f0.len() && ids@.take(k as int).contains(g) && gs_change_allowed(v, counts@[g as int], lifetimes@[g as int]) && f0[g as int] != v),
        decreases ids@.len() - k,
    {
        let g = ids[k];
        let ghost fl = flags@;
        proof {
            assert(ids@.take(k + 1) =~= ids@.take(k as int).push(g));
            assert forall|x: u32| #[trigger] ids@.take(k + 1).contains(x) == (ids@.take(k as int).contains(x) || x == g) by {
                if ids@.take(k + 1).contains(x) && x != g {
                    let j = choose|j: int| 0 <= j < k + 1 && #[trigger] ids@.take(k + 1)[j] == x;
                    assert(ids@.take(k as int)[j] == x);
                }
                if ids@.take(k as int).contains(x) {
                    let j = choose|j: int| 0 <= j < k && #[trigger] ids@.take(k as int)[j] == x;
                    assert(ids@.take(k + 1)[j] == x);
                }
                if x == g {
                    assert(ids@.take(k + 1)[k as int] == g);
                }
            }
        }
        let gi = g as usize;
        if gi < flags.len() && flags[gi] != v && change_allowed(v, counts[gi], lifetimes[gi]) {
            proof {
                assert(!changed@.contains(g));
                assert(!ids@.take(k as int).contains(g));
            }
            flags.set(gi, v);
            let ghost c0 = changed@;
            changed.push(g);
            proof {
                assert forall|x: u32| #[trigger] changed@.contains(x) <==> ((x as int) < f0.len() && ids@.take(k + 1).contains(x) && gs_change_allowed(v, counts@[x as int], lifetimes@[x as int]) && f0[x as int] != v) by {
                    if changed@.contains(x) && x != g {
                        let j = choose|j: int| 0 <= j < changed@.len() && changed@[j] == x;
                        assert(c0[j] == x);
                    }
                    if c0.contains(x) {
                        let j = choose|j: int| 0 <= j < c0.len() && c0[j] == x;
                        assert(changed@[j] == x);
                    }
                    if x == g {
                        assert(changed@[c0.len() as int] == g);
                    }
                }
            }
        } else {
            proof {
                assert forall|x: u32| #[trigger] changed@.contains(x) <==> ((x as int) < f0.len() && ids@.take(k + 1).contains(x) && gs_change_allowed(v, counts@[x as int], lifetimes@[x as int]) && f0[x as int] != v) by {
                    if x == g && (x as int) < f0.len() && gs_change_allowed(v, counts@[x as int], lifetimes@[x as int]) && f0[x as int] != v {
                        assert(fl[g as int] == v);
                        assert(ids@.take(k as int).contains(g));
                    }
                }
            }
        }
        proof {
            assert forall|x: u32| (x as int) < f0.len() implies #[trigger] flags@[x as int] == if ids@.take(k + 1).contains(x) && gs_change_allowed(v, counts@[x as int], lifetimes@[x as int]) {
                v
            } else {
                f0[x as int]
            } by {
                assert(fl[x as int] == if ids@.take(k as int).contains(x) && gs_change_allowed(v, counts@[x as int], lifetimes@[x as int]) {
                    v
                } else {
                    f0[x as int]
                });
            }
        }
        k = k + 1;
    }
    proof {
        assert(ids@.take(k as int) =~= ids@);
    }
    changed
}

impl<D: DataGroupMeta> World<D> {
    /// The loaded flags after the queued global system commands: the queues
    /// are drained, and the flags changed as `process_global_systems_commands`
    /// says; gives back the systems unloaded and those loaded.
    fn apply_global_systems_commands(&mut self) -> (r: (Vec<GlobalSystemID>, Vec<GlobalSystemID>))
        requires
            old(self).wf(),
        ensures
            final(self).wf(),
            final(self).spec_gs_creation_queue() == Seq::<u32>::empty(),
            final(self).spec_gs_deletion_queue() == Seq::<u32>::empty(),
            forall|g: GlobalSystemID| g < old(self).spec_gs_len() ==> #[trigger] final(self).spec_gs_loaded()[g as int] == if old(self).spec_gs_creation_queue().contains(g)
                && gs_change_allowed(true, old(self).spec_gs_count()[g as int], old(self).spec_gs_lifetimes()[g as int]) {
                true
            } else if old(self).spec_gs_deletion_queue().contains(g)
                && gs_change_allowed(false, old(self).spec_gs_count()[g as int], old(self).spec_gs_lifetimes()[g as int]) {
                false
            } else {
                old(self).spec_gs_loaded()[g as int]
            },
            r.0@.no_duplicates(),
            forall|g: GlobalSystemID| #[trigger] r.0@.contains(g) <==> (g < old(self).spec_gs_len() && old(self).spec_gs_deletion_queue().contains(g)
                && gs_change_allowed(false, old(self).spec_gs_count()[g as int], old(self).spec_gs_lifetimes()[g as int]) && old(self).spec_gs_loaded()[g as int]),
            r.1@.no_duplicates(),
            forall|g: GlobalSystemID| #[trigger] r.1@.contains(g) <==> (g < old(self).spec_gs_len() && old(self).spec_gs_creation_queue().contains(g)
                && gs_change_allowed(true, old(self).spec_gs_count()[g as int], old(self).spec_gs_lifetimes()[g as int])
                && !(old(self).spec_gs_loaded()[g as int] && !r.0@.contains(g))),
            final(self).spec_entities() == old(self).spec_entities(),
            final(self).spec_allocator() == old(self).spec_allocator(),
            final(self).spec_hierarchy() == old(self).spec_hierarchy(),
            final(self).spec_gs_count() == old(self).spec_gs_count(),
            final(self).spec_gs_lifetimes() == old(self).spec_gs_lifetimes(),
            old(self).gs_covered() ==> final(self).gs_covered(),
            old(self).gs_covered() ==> forall|g: GlobalSystemID| g < old(self).spec_gs_len() ==> (#[trigger] final(self).spec_gs_loaded()[g as int]
                == match old(self).spec_gs_lifetimes()[g as int] {
                    GlobalSystemLifetime::AlwaysLive => true,
                    GlobalSystemLifetime::WhenRequired => final(self).users(g).len() > 0,
                    GlobalSystemLifetime::Manual => final(self).spec_gs_loaded()[g as int],
                }),
            old(self).gs_covered() ==> forall|g: GlobalSystemID| g < old(self).spec_gs_len() && final(self).users(g).len() > 0
                ==> #[trigger] final(self).spec_gs_loaded()[g as int],
    {
        let ghost old_self = *self;
        let deletions = drain_ids(&mut self.gs_deletion_queue);
        let creations = drain_ids(&mut self.gs_creation_queue);
        let ghost f0 = self.global_systems_loaded@;
        let unloaded = set_flags(&mut self.global_systems_loaded, &deletions, false, &self.global_systems_count, &self.gs_lifetimes);
        let ghost f1 = self.global_systems_loaded@;
        let loaded = set_flags(&mut self.global_systems_loaded, &creations, true, &self.global_systems_count, &self.gs_lifetimes);
        proof {
            assert forall|g: GlobalSystemID| #[trigger] loaded@.contains(g) <==> (g < old_self.spec_gs_len() && old_self.spec_gs_creation_queue().contains(g)
                && gs_change_allowed(true, old_self.spec_gs_count()[g as int], old_self.spec_gs_lifetimes()[g as int])
                && !(old_self.spec_gs_loaded()[g as int] && !unloaded@.contains(g))) by {
                if g < old_self.spec_gs_len() {
                    assert(f1[g as int] == if deletions@.contains(g) && gs_change_allowed(false, old_self.spec_gs_count()[g as int], old_self.spec_gs_lifetimes()[g as int]) { false } else { f0[g as int] });
                }
            }
            Self::lemma_wf_only_flags_changed(&old_self, self);
            if old_self.gs_covered() {
                assert forall|g: GlobalSystemID| g < old_self.spec_gs_len() implies #[trigger] self.gs_covers(g) by {
                    assert(old_self.gs_covers(g));
                    assert(self.spec_gs_count()[g as int] == self.users(g).len());
                }
                assert forall|g: GlobalSystemID| g < old_self.spec_gs_len() && self.users(g).len() > 0 implies #[trigger] self.spec_gs_loaded()[g as int] by {
                    assert(old_self.gs_covers(g));
                    assert(self.spec_gs_count()[g as int] == self.users(g).len());
                }
                assert forall|g: GlobalSystemID| g < old_self.spec_gs_len() implies (#[trigger] self.spec_gs_loaded()[g as int]
                    == match old_self.spec_gs_lifetimes()[g as int] {
                        GlobalSystemLifetime::AlwaysLive => true,
                        GlobalSystemLifetime::WhenRequired => self.users(g).len() > 0,
                        GlobalSystemLifetime::Manual => self.spec_gs_loaded()[g as int],
                    }) by {
                    assert(old_self.gs_covers(g));
                    assert(self.spec_gs_count()[g as int] == self.users(g).len());
                }
            }
        }
        (unloaded, loaded)
    }

    /// Apply the queued global system commands: first unload each queued for
    /// unloading that is loaded and may be unloaded (it is not always live
    /// and no entity requires it), then load each queued for loading that is
    /// not loaded and may be loaded (it is always live or manual, or some
    /// entity requires it). Both queues end empty. The stage lists of
    /// `stages` follow: an unloaded system leaves every list, a loaded one
    /// joins the lists of the stages it has a function for, and the lists
    /// are sorted. Gives back the global systems unloaded and those loaded,
    /// in the order it handled them, so that their storage can be dropped or
    /// created. When the queues covered every global system, each ends where
    /// its lifetime puts it: an always live one loaded, one loaded when
    /// required loaded exactly when some entity requires it, a manual one
    /// loaded while some entity requires it.
    pub fn process_global_systems_commands(&mut self, stages: &mut GlobalSystemStages) -> (r: (Vec<GlobalSystemID>, Vec<GlobalSystemID>))
        requires
            old(self).wf(),
            old(self).stages_agree(*old(stages)),
            old(stages).sorted(),
        ensures
            final(self).wf(),
            final(self).spec_gs_creation_queue() == Seq::<u32>::empty(),
            final(self).spec_gs_deletion_queue() == Seq::<u32>::empty(),
            forall|g: GlobalSystemID| g < old(self).spec_gs_len() ==> #[trigger] final(self).spec_gs_loaded()[g as int] == if old(self).spec_gs_creation_queue().contains(g)
                && gs_change_allowed(true, old(self).spec_gs_count()[g as int], old(self).spec_gs_lifetimes()[g as int]) {
                true
            } else if old(self).spec_gs_deletion_queue().contains(g)
                && gs_change_allowed(false, old(self).spec_gs_count()[g as int], old(self).spec_gs_lifetimes()[g as int]) {
                false
            } else {
                old(self).spec_gs_loaded()[g as int]
            },
            r.0@.no_duplicates(),
            forall|g: GlobalSystemID| #[trigger] r.0@.contains(g) <==> (g < old(self).spec_gs_len() && old(self).spec_gs_deletion_queue().contains(g)
                && gs_change_allowed(false, old(self).spec_gs_count()[g as int], old(self).spec_gs_lifetimes()[g as int]) && old(self).spec_gs_loaded()[g as int]),
            r.1@.no_duplicates(),
            forall|g: GlobalSystemID| #[trigger] r.1@.contains(g) <==> (g < old(self).spec_gs_len() && old(self).spec_gs_creation_queue().contains(g)
                && gs_change_allowed(true, old(self).spec_gs_count()[g as int], old(self).spec_gs_lifetimes()[g as int])
                && !(old(self).spec_gs_loaded()[g as int] && !r.0@.contains(g))),
            final(self).spec_entities() == old(self).spec_entities(),
            final(self).spec_allocator() == old(self).spec_allocator(),
            final(self).spec_hierarchy() == old(self).spec_hierarchy(),
            final(self).spec_gs_count() == old(self).spec_gs_count(),
            final(self).spec_gs_lifetimes() == old(self).spec_gs_lifetimes(),
            old(self).gs_covered() ==> final(self).gs_covered(),
            old(self).gs_covered() ==> forall|g: GlobalSystemID| g < old(self).spec_gs_len() ==> (#[trigger] final(self).spec_gs_loaded()[g as int]
                == match old(self).spec_gs_lifetimes()[g as int] {
                    GlobalSystemLifetime::AlwaysLive => true,
                    GlobalSystemLifetime::WhenRequired => final(self).users(g).len() > 0,
                    GlobalSystemLifetime::Manual => final(self).spec_gs_loaded()[g as int],
                }),
            old(self).gs_covered() ==> forall|g: GlobalSystemID| g < old(self).spec_gs_len() && final(self).users(g).len() > 0
                ==> #[trigger] final(self).spec_gs_loaded()[g as int],
            final(self).stages_agree(*final(stages)),
            final(stages).sorted(),
            forall|h: int, s: int| #[trigger] final(stages).has_function(h, s) == old(stages).has_function(h, s),
            forall|s: int, g: GlobalSystemID| 0 <= s < STAGE_COUNT ==> (#[trigger] final(stages).stage(s).contains(g)
                <==> (g < old(self).spec_gs_len() && final(self).spec_gs_loaded()[g as int] && old(stages).has_function(g as int, s))),
    {
        let ghost old_self = *self;
        let ghost old_stages = *stages;
        let r = self.apply_global_systems_commands();
        proof {
            assert forall|g: GlobalSystemID| #[trigger] r.0@.contains(g) implies g < old_stages.spec_len() && old_stages.is_loaded(g as int) by {
                assert(old_self.spec_gs_loaded()[g as int]);
            }
            assert forall|g: GlobalSystemID| #[trigger] r.1@.contains(g) implies g < old_stages.spec_len()
                && (!old_stages.is_loaded(g as int) || r.0@.contains(g)) by {
                assert(old_stages.is_loaded(g as int) == old_self.spec_gs_loaded()[g as int]);
            }
        }
        stages.process(&r.0, &r.1);
        proof {
            assert forall|g: GlobalSystemID| g < self.spec_gs_len() implies #[trigger] stages.is_loaded(g as int) == self.spec_gs_loaded()[g as int] by {
                assert(old_stages.is_loaded(g as int) == old_self.spec_gs_loaded()[g as int]);
                if r.1@.contains(g) {
                } else if r.0@.contains(g) {
                } else {
                }
            }
            assert forall|s: int, g: GlobalSystemID| 0 <= s < STAGE_COUNT implies (#[trigger] stages.stage(s).contains(g)
                <==> (g < old_self.spec_gs_len() && self.spec_gs_loaded()[g as int] && old_stages.has_function(g as int, s))) by {
                law_stages_list_loaded_systems_in_order(*stages, s);
                if g < old_self.spec_gs_len() {
                    assert(stages.is_loaded(g as int) == self.spec_gs_loaded()[g as int]);
                }
            }
        }
        r
    }

    /// Load global system `g` at once: it is marked loaded and joins, at the
    /// end, the list of every stage it has a function for. The stage lists
    /// are left for a later sort.
    pub fn load_global_system(&mut self, stages: &mut GlobalSystemStages, g: GlobalSystemID)
        requires
            old(self).wf(),
            old(self).stages_agree(*old(stages)),
            g < old(self).spec_gs_len(),
            !old(self).spec_gs_loaded()[g as int],
        ensures
            final(self).wf(),
            final(self).stages_agree(*final(stages)),
            final(self).spec_gs_loaded() == old(self).spec_gs_loaded().update(g as int, true),
            final(self).spec_gs_creation_queue() == old(self).spec_gs_creation_queue(),
            final(self).spec_gs_deletion_queue() == old(self).spec_gs_deletion_queue(),
            final(self).spec_gs_count() == old(self).spec_gs_count(),
            final(self).spec_gs_lifetimes() == old(self).spec_gs_lifetimes(),
            final(self).spec_entities() == old(self).spec_entities(),
            final(self).spec_allocator() == old(self).spec_allocator(),
            final(self).spec_hierarchy() == old(self).spec_hierarchy(),
            forall|h: int, s: int| #[trigger] final(stages).has_function(h, s) == old(stages).has_function(h, s),
            forall|s: int| 0 <= s < STAGE_COUNT ==> #[trigger] final(stages).stage(s) == if old(stages).has_function(g as int, s) {
                old(stages).stage(s).push(g)
            } else {
                old(stages).stage(s)
            },
    {
        let ghost old_self = *self;
        self.global_systems_loaded.set(g as usize, true);
        stages.load_global_system(g);
        proof {
            Self::lemma_wf_only_flags_changed(&old_self, self);
            assert forall|h: GlobalSystemID| h < self.spec_gs_len() implies #[trigger] stages.is_loaded(h as int) == self.spec_gs_loaded()[h as int] by {
                assert(old_self.stages_agree(*old(stages)));
            }
        }
    }

    /// Unload global system `g` at once: it is marked unloaded and leaves the
    /// list of every stage it has a function for, its place taken by the last
    /// system of the list. The stage lists are left for a later sort.
    pub fn unload_global_system(&mut self, stages: &mut GlobalSystemStages, g: GlobalSystemID)
        requires
            old(self).wf(),
            old(self).stages_agree(*old(stages)),
            g < old(self).spec_gs_len(),
            old(self).spec_gs_loaded()[g as int],
        ensures
            final(self).wf(),
            final(self).stages_agree(*final(stages)),
            final(self).spec_gs_loaded() == old(self).spec_gs_loaded().update(g as int, false),
            final(self).spec_gs_creation_queue() == old(self).spec_gs_creation_queue(),
            final(self).spec_gs_deletion_queue() == old(self).spec_gs_deletion_queue(),
            final(self).spec_gs_count() == old(self).spec_gs_count(),
            final(self).spec_gs_lifetimes() == old(self).spec_gs_lifetimes(),
            final(self).spec_entities() == old(self).spec_entities(),
            final(self).spec_allocator() == old(self).spec_allocator(),
            final(self).spec_hierarchy() == old(self).spec_hierarchy(),
            forall|h: int, s: int| #[trigger] final(stages).has_function(h, s) == old(stages).has_function(h, s),
            forall|s: int| 0 <= s < STAGE_COUNT ==> #[trigger] final(stages).stage(s) == if old(stages).has_function(g as int, s) {
                old(stages).stage(s).update(old(stages).stage(s).index_of(g), old(stages).stage(s).last()).drop_last()
            } else {
                old(stages).stage(s)
            },
    {
        let ghost old_self = *self;
        self.global_systems_loaded.set(g as usize, false);
        stages.unload_global_system(g);
        proof {
            Self::lemma_wf_only_flags_changed(&old_self, self);
            assert forall|h: GlobalSystemID| h < self.spec_gs_len() implies #[trigger] stages.is_loaded(h as int) == self.spec_gs_loaded()[h as int] by {
                assert(old_self.stages_agree(*old(stages)));
            }
        }
    }

    /// Changing only the loaded flags and the command queues of a well formed
    /// world keeps it well formed.
    proof fn lemma_wf_only_flags_changed(a: &Self, b: &Self)
        requires
            a.wf(),
            b.entities == a.entities,
            b.allocator == a.allocator,
            b.hierarchy == a.hierarchy,
            b.node_of == a.node_of,
            b.entity_of_node == a.entity_of_node,
            b.global_systems_count == a.global_systems_count,
            b.gs_entity_map == a.gs_entity_map,
            b.entities_stages == a.entities_stages,
            b.gs_lifetimes == a.gs_lifetimes,
            b.global_systems_loaded@.len() == a.global_systems_loaded@.len(),
        ensures
            b.wf(),
    {
        assert(b.spec_entities() == a.spec_entities());
        assert(b.spec_node_of() == a.spec_node_of());
        assert forall|o: EntityID| #[trigger] b.spec_entities().contains_key(o) implies b.entity_ok(o) by {
            assert(a.entity_ok(o));
        }
        assert forall|o: EntityID| #[trigger] b.spec_node_of().contains_key(o) implies b.spec_entities().contains_key(o) by {
            assert(a.spec_node_of().contains_key(o));
        }
        assert forall|g: GlobalSystemID| g < b.spec_gs_len() implies #[trigger] b.spec_gs_count()[g as int] == b.users(g).len() by {
            assert(a.spec_gs_count()[g as int] == a.users(g).len());
            assert(b.users(g) =~= a.users(g));
        }
    }
}

impl<D: DataGroupMeta> World<D> {
    /// The worlds agree on everything but the datagroups of their entities.
    pub open spec fn same_but_datagroups(a: &Self, b: &Self) -> bool {
        &&& a.spec_id() == b.spec_id()
        &&& a.spec_entities() == b.spec_entities()
        &&& a.spec_hierarchy() == b.spec_hierarchy()
        &&& a.spec_node_of() == b.spec_node_of()
        &&& a.spec_entity_of_node() == b.spec_entity_of_node()
        &&& a.spec_entities_all() == b.spec_entities_all()
        &&& forall|s: int| 0 <= s < STAGE_COUNT ==> #[trigger] a.spec_stage_entities(s) == b.spec_stage_entities(s)
        &&& a.spec_gs_count() == b.spec_gs_count()
        &&& a.spec_gs_loaded() == b.spec_gs_loaded()
        &&& a.spec_gs_lifetimes() == b.spec_gs_lifetimes()
        &&& a.spec_gs_creation_queue() == b.spec_gs_creation_queue()
        &&& a.spec_gs_deletion_queue() == b.spec_gs_deletion_queue()
        &&& forall|g: int| 0 <= g < a.spec_gs_len() ==> #[trigger] a.spec_gs_entities(g) == b.spec_gs_entities(g)
        &&& a.spec_allocator()@.dom() == b.spec_allocator()@.dom()
        &&& forall|o: EntityID| #[trigger] a.spec_entities().contains_key(o) ==> same_but_datagroups(a.entity(o), b.entity(o))
    }

    /// Every entity of the world can run its systems of stage `stage_id`.
    pub open spec fn stage_can_run<W, F, G>(&self, registry: &LocalSystemRegistry<F, G>, ctx: &W, stage_id: StageID) -> bool
        where F: Fn(&W, EntityID, &[DataGroupIndexingType], &mut Vec<D>)
    {
        forall|o: EntityID| #[trigger] self.spec_entities().contains_key(o) && self.entity(o).spec_stage_flags()[stage_id as int]
            ==> self.entity(o).systems_can_run(registry, ctx, stage_id)
    }

    proof fn lemma_same_but_datagroups_trans(a: &Self, b: &Self, c: &Self)
        requires
            Self::same_but_datagroups(a, b),
            Self::same_but_datagroups(b, c),
        ensures
            Self::same_but_datagroups(a, c),
    {
        assert forall|o: EntityID| #[trigger] a.spec_entities().contains_key(o) implies same_but_datagroups(a.entity(o), c.entity(o)) by {
            assert(same_but_datagroups(a.entity(o), b.entity(o)));
            assert(b.spec_entities().contains_key(o));
            assert(same_but_datagroups(b.entity(o), c.entity(o)));
        }
        assert forall|s: int| 0 <= s < STAGE_COUNT implies #[trigger] a.spec_stage_entities(s) == c.spec_stage_entities(s) by {
            assert(a.spec_stage_entities(s) == b.spec_stage_entities(s));
        }
        assert forall|g: int| 0 <= g < a.spec_gs_len() implies #[trigger] a.spec_gs_entities(g) == c.spec_gs_entities(g) by {
            assert(a.spec_gs_entities(g) == b.spec_gs_entities(g));
        }
    }

    /// A world that agrees with a well formed one on everything but the
    /// datagroups, and whose entities keep a consistent plan, is well formed,
    /// and its entities can run what the other's could.
    proof fn lemma_same_but_datagroups_wf<W, F, G>(a: &Self, b: &Self, registry: &LocalSystemRegistry<F, G>, ctx: &W, stage_id: StageID)
        where F: Fn(&W, EntityID, &[DataGroupIndexingType], &mut Vec<D>)
        requires
            a.wf(),
            Self::same_but_datagroups(a, b),
            b.spec_allocator().wf(),
            b.stage_tables_ok(),
            forall|o: EntityID| #[trigger] b.spec_entities().contains_key(o) ==> b.spec_allocator()@[b.spec_entities()[o]] is Some,
            a.stage_can_run(registry, ctx, stage_id),
        ensures
            b.wf(),
            b.stage_can_run(registry, ctx, stage_id),
    {
        assert forall|o: EntityID| #[trigger] b.spec_entities().contains_key(o) implies b.entity_ok(o) by {
            assert(a.entity_ok(o));
            assert(same_but_datagroups(a.entity(o), b.entity(o)));
            assert(b.entity(o).plan_ok());
        }
        assert forall|o: EntityID| #[trigger] b.spec_node_of().contains_key(o) implies b.spec_entities().contains_key(o) by {
            assert(a.spec_node_of().contains_key(o));
        }
        assert forall|g: GlobalSystemID| g < b.spec_gs_len() implies #[trigger] b.spec_gs_count()[g as int] == b.users(g).len() by {
            assert(a.spec_gs_count()[g as int] == a.users(g).len());
            assert forall|o: EntityID| #[trigger] b.users(g).contains(o) <==> a.users(g).contains(o) by {
                if a.spec_entities().contains_key(o) {
                    assert(same_but_datagroups(a.entity(o), b.entity(o)));
                }
            }
            assert(b.users(g) =~= a.users(g));
        }
        assert forall|o: EntityID| #[trigger] b.spec_entities().contains_key(o) && b.entity(o).spec_stage_flags()[stage_id as int]
            implies b.entity(o).systems_can_run(registry, ctx, stage_id) by {
            assert(same_but_datagroups(a.entity(o), b.entity(o)));
            assert(a.entity(o).systems_can_run(registry, ctx, stage_id));
        }
    }

    /// Run the systems of stage `stage_id` of the entity `id`, if it has some:
    /// the entity's datagroups go through its calls of the stage as
    /// `Entity::run_stage` makes them, and those of every other entity stay.
    #[verifier::spinoff_prover]
    fn run_entity<W, F, G>(&mut self, id: EntityID, registry: &LocalSystemRegistry<F, G>, ctx: &W, stage_id: StageID)
        where F: Fn(&W, EntityID, &[DataGroupIndexingType], &mut Vec<D>)
        requires
            old(self).wf(),
            old(self).stage_can_run(registry, ctx, stage_id),
            old(self).spec_entities().contains_key(id),
        ensures
            final(self).wf(),
            final(self).stage_can_run(registry, ctx, stage_id),
            Self::same_but_datagroups(old(self), final(self)),
            forall|o: EntityID| #[trigger] old(self).spec_entities().contains_key(o) && o != id
                ==> final(self).entity(o).spec_datagroups() == old(self).entity(o).spec_datagroups(),
            forall|o: EntityID| #[trigger] old(self).spec_entities().contains_key(o) ==>
                (exists|cl: Seq<(&[DataGroupIndexingType], &mut Vec<D>)>| #![trigger cl.len()] {
                    &&& cl.len() == (repeat_calls(stage_round(registry@, old(self).entity(o), stage_id), if o == id { 1nat } else { 0nat })).len()
                    &&& (repeat_calls(stage_round(registry@, old(self).entity(o), stage_id), if o == id { 1nat } else { 0nat })).len() == 0 ==> final(self).entity(o).spec_datagroups() =~= old(self).entity(o).spec_datagroups()
                    &&& (repeat_calls(stage_round(registry@, old(self).entity(o), stage_id), if o == id { 1nat } else { 0nat })).len() > 0 ==> mut_ref_current(cl[0].1)@ =~= old(self).entity(o).spec_datagroups() && mut_ref_future(cl[(repeat_calls(stage_round(registry@, old(self).entity(o), stage_id), if o == id { 1nat } else { 0nat })).len() - 1].1)@ =~= final(self).entity(o).spec_datagroups()
                    &&& forall|j: int| #![trigger cl[j]] 0 <= j < (repeat_calls(stage_round(registry@, old(self).entity(o), stage_id), if o == id { 1nat } else { 0nat })).len() ==> (cl[j].0)@ === (repeat_calls(stage_round(registry@, old(self).entity(o), stage_id), if o == id { 1nat } else { 0nat }))[j].1 && call_ensures((repeat_calls(stage_round(registry@, old(self).entity(o), stage_id), if o == id { 1nat } else { 0nat }))[j].0, (ctx, o, cl[j].0, cl[j].1), ())
                    &&& forall|j: int| 0 <= j < (repeat_calls(stage_round(registry@, old(self).entity(o), stage_id), if o == id { 1nat } else { 0nat })).len() - 1 ==> mut_ref_future(#[trigger] cl[j].1)@ =~= mut_ref_current(cl[j + 1].1)@
                }),
    {
        let ghost old_self = *self;
        let ptr = match self.entities.get(&id) {
            Some(p) => *p,
            None => {
                proof {
                    assert(false);
                }
                return;
            },
        };
        proof {
            assert(old_self.entity_ok(id));
        }
        let mut e = self.allocator.take(&ptr);
        let ghost e0 = e;
        proof {
            assert(e0 == old_self.entity(id));
            assert(e0.spec_id() == id);
        }
        if e.is_stage_enabled(stage_id) {
            e.run_stage(registry, ctx, stage_id);
        } else {
            proof {
                assert(stage_round(registry@, e0, stage_id) =~= Seq::<(F, Seq<DataGroupIndexingType>)>::empty());
                lemma_chain_empty::<W, D, F>(ctx, id, e0.spec_datagroups());
            }
        }
        self.allocator.init(&ptr, e);
        proof {
            assert(self.entity(id) == e);
            let r = stage_round(registry@, e0, stage_id);
            assert(repeat_calls(r, 1) =~= r) by {
                assert(repeat_calls(r, 0) =~= Seq::<(F, Seq<DataGroupIndexingType>)>::empty());
            }
            assert((exists|cl: Seq<(&[DataGroupIndexingType], &mut Vec<D>)>| #![trigger cl.len()] {
                &&& cl.len() == (repeat_calls(stage_round(registry@, old_self.entity(id), stage_id), 1nat)).len()
                &&& (repeat_calls(stage_round(registry@, old_self.entity(id), stage_id), 1nat)).len() == 0 ==> self.entity(id).spec_datagroups() =~= old_self.entity(id).spec_datagroups()
                &&& (repeat_calls(stage_round(registry@, old_self.entity(id), stage_id), 1nat)).len() > 0 ==> mut_ref_current(cl[0].1)@ =~= old_self.entity(id).spec_datagroups() && mut_ref_future(cl[(repeat_calls(stage_round(registry@, old_self.entity(id), stage_id), 1nat)).len() - 1].1)@ =~= self.entity(id).spec_datagroups()
                &&& forall|j: int| #![trigger cl[j]] 0 <= j < (repeat_calls(stage_round(registry@, old_self.entity(id), stage_id), 1nat)).len() ==> (cl[j].0)@ === (repeat_calls(stage_round(registry@, old_self.entity(id), stage_id), 1nat))[j].1 && call_ensures((repeat_calls(stage_round(registry@, old_self.entity(id), stage_id), 1nat))[j].0, (ctx, id, cl[j].0, cl[j].1), ())
                &&& forall|j: int| 0 <= j < (repeat_calls(stage_round(registry@, old_self.entity(id), stage_id), 1nat)).len() - 1 ==> mut_ref_future(#[trigger] cl[j].1)@ =~= mut_ref_current(cl[j + 1].1)@
            }));
            assert forall|o: EntityID| #[trigger] old_self.spec_entities().contains_key(o) implies same_but_datagroups(old_self.entity(o), self.entity(o)) by {
                if o != id {
                    assert(old_self.entity_ok(o));
                    assert(old_self.spec_entities()[o] != ptr);
                }
            }
            assert forall|o: EntityID| #[trigger] old_self.spec_entities().contains_key(o) && o != id
                implies self.entity(o).spec_datagroups() == old_self.entity(o).spec_datagroups() by {
                assert(old_self.entity_ok(o));
                assert(old_self.spec_entities()[o] != ptr);
            }
            assert forall|o: EntityID| #[trigger] old_self.spec_entities().contains_key(o) implies
                (exists|cl: Seq<(&[DataGroupIndexingType], &mut Vec<D>)>| #![trigger cl.len()] {
                    &&& cl.len() == (repeat_calls(stage_round(registry@, old_self.entity(o), stage_id), if o == id { 1nat } else { 0nat })).len()
                    &&& (repeat_calls(stage_round(registry@, old_self.entity(o), stage_id), if o == id { 1nat } else { 0nat })).len() == 0 ==> self.entity(o).spec_datagroups() =~= old_self.entity(o).spec_datagroups()
                    &&& (repeat_calls(stage_round(registry@, old_self.entity(o), stage_id), if o == id { 1nat } else { 0nat })).len() > 0 ==> mut_ref_current(cl[0].1)@ =~= old_self.entity(o).spec_datagroups() && mut_ref_future(cl[(repeat_calls(stage_round(registry@, old_self.entity(o), stage_id), if o == id { 1nat } else { 0nat })).len() - 1].1)@ =~= self.entity(o).spec_datagroups()
                    &&& forall|j: int| #![trigger cl[j]] 0 <= j < (repeat_calls(stage_round(registry@, old_self.entity(o), stage_id), if o == id { 1nat } else { 0nat })).len() ==> (cl[j].0)@ === (repeat_calls(stage_round(registry@, old_self.entity(o), stage_id), if o == id { 1nat } else { 0nat }))[j].1 && call_ensures((repeat_calls(stage_round(registry@, old_self.entity(o), stage_id), if o == id { 1nat } else { 0nat }))[j].0, (ctx, o, cl[j].0, cl[j].1), ())
                    &&& forall|j: int| 0 <= j < (repeat_calls(stage_round(registry@, old_self.entity(o), stage_id), if o == id { 1nat } else { 0nat })).len() - 1 ==> mut_ref_future(#[trigger] cl[j].1)@ =~= mut_ref_current(cl[j + 1].1)@
                }) by {
                if o != id {
                    assert(old_self.entity_ok(o));
                    assert(old_self.spec_entities()[o] != ptr);
                    assert(repeat_calls(stage_round(registry@, old_self.entity(o), stage_id), 0) =~= Seq::<(F, Seq<DataGroupIndexingType>)>::empty());
                    lemma_chain_empty::<W, D, F>(ctx, o, old_self.entity(o).spec_datagroups());
                }
            }
            assert(self.spec_allocator()@.dom() =~= old_self.spec_allocator()@.dom());
            assert forall|o: EntityID| #[trigger] self.spec_entities().contains_key(o) implies self.spec_allocator()@[self.spec_entities()[o]] is Some by {
                assert(old_self.entity_ok(o));
            }
            Self::lemma_same_but_datagroups_wf(&old_self, self, registry, ctx, stage_id);
        }
    }

    /// Run stage `stage_id` on the hierarchy below node `node`: the entity of
    /// the node first, if it is live, then, one after the other, the
    /// hierarchies of its children in which some entity runs in the stage.
    /// Each live entity whose node the stage reaches from `node` goes through
    /// one round of its calls of the stage, as `Entity::run_stage` makes them;
    /// the datagroups of every other entity stay.
    #[verifier::spinoff_prover]
    fn run_hierarchy<W, F, G>(&mut self, node: NodeIndex, registry: &LocalSystemRegistry<F, G>, ctx: &W, stage_id: StageID)
        where F: Fn(&W, EntityID, &[DataGroupIndexingType], &mut Vec<D>)
        requires
            old(self).wf(),
            old(self).stage_can_run(registry, ctx, stage_id),
            node < old(self).spec_hierarchy().len(),
        ensures
            final(self).wf(),
            final(self).stage_can_run(registry, ctx, stage_id),
            Self::same_but_datagroups(old(self), final(self)),
            forall|o: EntityID| #[trigger] old(self).spec_entities().contains_key(o) ==>
                (exists|cl: Seq<(&[DataGroupIndexingType], &mut Vec<D>)>| #![trigger cl.len()] {
                    &&& cl.len() == (repeat_calls(stage_round(registry@, old(self).entity(o), stage_id), if old(self).spec_node_of().contains_key(o) && old(self).spec_hierarchy().reaches_in_stage(node as int, old(self).spec_node_of()[o] as int, stage_id as int) { 1nat } else { 0nat })).len()
                    &&& (repeat_calls(stage_round(registry@, old(self).entity(o), stage_id), if old(self).spec_node_of().contains_key(o) && old(self).spec_hierarchy().reaches_in_stage(node as int, old(self).spec_node_of()[o] as int, stage_id as int) { 1nat } else { 0nat })).len() == 0 ==> final(self).entity(o).spec_datagroups() =~= old(self).entity(o).spec_datagroups()
                    &&& (repeat_calls(stage_round(registry@, old(self).entity(o), stage_id), if old(self).spec_node_of().contains_key(o) && old(self).spec_hierarchy().reaches_in_stage(node as int, old(self).spec_node_of()[o] as int, stage_id as int) { 1nat } else { 0nat })).len() > 0 ==> mut_ref_current(cl[0].1)@ =~= old(self).entity(o).spec_datagroups() && mut_ref_future(cl[(repeat_calls(stage_round(registry@, old(self).entity(o), stage_id), if old(self).spec_node_of().contains_key(o) && old(self).spec_hierarchy().reaches_in_stage(node as int, old(self).spec_node_of()[o] as int, stage_id as int) { 1nat } else { 0nat })).len() - 1].1)@ =~= final(self).entity(o).spec_datagroups()
                    &&& forall|j: int| #![trigger cl[j]] 0 <= j < (repeat_calls(stage_round(registry@, old(self).entity(o), stage_id), if old(self).spec_node_of().contains_key(o) && old(self).spec_hierarchy().reaches_in_stage(node as int, old(self).spec_node_of()[o] as int, stage_id as int) { 1nat } else { 0nat })).len() ==> (cl[j].0)@ === (repeat_calls(stage_round(registry@, old(self).entity(o), stage_id), if old(self).spec_node_of().contains_key(o) && old(self).spec_hierarchy().reaches_in_stage(node as int, old(self).spec_node_of()[o] as int, stage_id as int) { 1nat } else { 0nat }))[j].1 && call_ensures((repeat_calls(stage_round(registry@, old(self).entity(o), stage_id), if old(self).spec_node_of().contains_key(o) && old(self).spec_hierarchy().reaches_in_stage(node as int, old(self).spec_node_of()[o] as int, stage_id as int) { 1nat } else { 0nat }))[j].0, (ctx, o, cl[j].0, cl[j].1), ())
                    &&& forall|j: int| 0 <= j < (repeat_calls(stage_round(registry@, old(self).entity(o), stage_id), if old(self).spec_node_of().contains_key(o) && old(self).spec_hierarchy().reaches_in_stage(node as int, old(self).spec_node_of()[o] as int, stage_id as int) { 1nat } else { 0nat })).len() - 1 ==> mut_ref_future(#[trigger] cl[j].1)@ =~= mut_ref_current(cl[j + 1].1)@
                }),
        decreases self.spec_hierarchy().subtree(node as int).len(),
    {
        let ghost old_self = *self;
        let ghost h = old_self.spec_hierarchy();
        let ghost s = stage_id as int;
        let eid = self.entity_of_node[node];
        let live = match self.node_of.get(&eid) {
            Some(n) => *n == node,
            None => false,
        };
        let children = copy_ids(self.hierarchy.get_children(node));
        if live {
            proof {
                assert(self.spec_node_of().contains_key(eid));
            }
            self.run_entity(eid, registry, ctx, stage_id);
            proof {
                assert forall|o: EntityID| #[trigger] old_self.spec_entities().contains_key(o) implies
                    (exists|cl: Seq<(&[DataGroupIndexingType], &mut Vec<D>)>| #![trigger cl.len()] {
                        &&& cl.len() == (repeat_calls(stage_round(registry@, old_self.entity(o), stage_id), if old_self.spec_node_of().contains_key(o) && h.reaches_through(node as int, children@, 0, old_self.spec_node_of()[o] as int, s) { 1nat } else { 0nat })).len()
                        &&& (repeat_calls(stage_round(registry@, old_self.entity(o), stage_id), if old_self.spec_node_of().contains_key(o) && h.reaches_through(node as int, children@, 0, old_self.spec_node_of()[o] as int, s) { 1nat } else { 0nat })).len() == 0 ==> self.entity(o).spec_datagroups() =~= old_self.entity(o).spec_datagroups()
                        &&& (repeat_calls(stage_round(registry@, old_self.entity(o), stage_id), if old_self.spec_node_of().contains_key(o) && h.reaches_through(node as int, children@, 0, old_self.spec_node_of()[o] as int, s) { 1nat } else { 0nat })).len() > 0 ==> mut_ref_current(cl[0].1)@ =~= old_self.entity(o).spec_datagroups() && mut_ref_future(cl[(repeat_calls(stage_round(registry@, old_self.entity(o), stage_id), if old_self.spec_node_of().contains_key(o) && h.reaches_through(node as int, children@, 0, old_self.spec_node_of()[o] as int, s) { 1nat } else { 0nat })).len() - 1].1)@ =~= self.entity(o).spec_datagroups()
                        &&& forall|j: int| #![trigger cl[j]] 0 <= j < (repeat_calls(stage_round(registry@, old_self.entity(o), stage_id), if old_self.spec_node_of().contains_key(o) && h.reaches_through(node as int, children@, 0, old_self.spec_node_of()[o] as int, s) { 1nat } else { 0nat })).len() ==> (cl[j].0)@ === (repeat_calls(stage_round(registry@, old_self.entity(o), stage_id), if old_self.spec_node_of().contains_key(o) && h.reaches_through(node as int, children@, 0, old_self.spec_node_of()[o] as int, s) { 1nat } else { 0nat }))[j].1 && call_ensures((repeat_calls(stage_round(registry@, old_self.entity(o), stage_id), if old_self.spec_node_of().contains_key(o) && h.reaches_through(node as int, children@, 0, old_self.spec_node_of()[o] as int, s) { 1nat } else { 0nat }))[j].0, (ctx, o, cl[j].0, cl[j].1), ())
                        &&& forall|j: int| 0 <= j < (repeat_calls(stage_round(registry@, old_self.entity(o), stage_id), if old_self.spec_node_of().contains_key(o) && h.reaches_through(node as int, children@, 0, old_self.spec_node_of()[o] as int, s) { 1nat } else { 0nat })).len() - 1 ==> mut_ref_future(#[trigger] cl[j].1)@ =~= mut_ref_current(cl[j + 1].1)@
                    }) by {
                    assert(old_self.entity_ok(o));
                    if old_self.spec_node_of().contains_key(o) && old_self.spec_node_of()[o] == node {
                        assert(old_self.spec_entity_of_node()[node as int] == o);
                        assert(o == eid);
                    }
                    if o == eid {
                        assert(old_self.spec_node_of()[o] == node);
                    }
                }
            }
        } else {
            proof {
                assert forall|o: EntityID| #[trigger] old_self.spec_entities().contains_key(o) implies
                    (exists|cl: Seq<(&[DataGroupIndexingType], &mut Vec<D>)>| #![trigger cl.len()] {
                        &&& cl.len() == (repeat_calls(stage_round(registry@, old_self.entity(o), stage_id), if old_self.spec_node_of().contains_key(o) && h.reaches_through(node as int, children@, 0, old_self.spec_node_of()[o] as int, s) { 1nat } else { 0nat })).len()
                        &&& (repeat_calls(stage_round(registry@, old_self.entity(o), stage_id), if old_self.spec_node_of().contains_key(o) && h.reaches_through(node as int, children@, 0, old_self.spec_node_of()[o] as int, s) { 1nat } else { 0nat })).len() == 0 ==> self.entity(o).spec_datagroups() =~= old_self.entity(o).spec_datagroups()
                        &&& (repeat_calls(stage_round(registry@, old_self.entity(o), stage_id), if old_self.spec_node_of().contains_key(o) && h.reaches_through(node as int, children@, 0, old_self.spec_node_of()[o] as int, s) { 1nat } else { 0nat })).len() > 0 ==> mut_ref_current(cl[0].1)@ =~= old_self.entity(o).spec_datagroups() && mut_ref_future(cl[(repeat_calls(stage_round(registry@, old_self.entity(o), stage_id), if old_self.spec_node_of().contains_key(o) && h.reaches_through(node as int, children@, 0, old_self.spec_node_of()[o] as int, s) { 1nat } else { 0nat })).len() - 1].1)@ =~= self.entity(o).spec_datagroups()
                        &&& forall|j: int| #![trigger cl[j]] 0 <= j < (repeat_calls(stage_round(registry@, old_self.entity(o), stage_id), if old_self.spec_node_of().contains_key(o) && h.reaches_through(node as int, children@, 0, old_self.spec_node_of()[o] as int, s) { 1nat } else { 0nat })).len() ==> (cl[j].0)@ === (repeat_calls(stage_round(registry@, old_self.entity(o), stage_id), if old_self.spec_node_of().contains_key(o) && h.reaches_through(node as int, children@, 0, old_self.spec_node_of()[o] as int, s) { 1nat } else { 0nat }))[j].1 && call_ensures((repeat_calls(stage_round(registry@, old_self.entity(o), stage_id), if old_self.spec_node_of().contains_key(o) && h.reaches_through(node as int, children@, 0, old_self.spec_node_of()[o] as int, s) { 1nat } else { 0nat }))[j].0, (ctx, o, cl[j].0, cl[j].1), ())
                        &&& forall|j: int| 0 <= j < (repeat_calls(stage_round(registry@, old_self.entity(o), stage_id), if old_self.spec_node_of().contains_key(o) && h.reaches_through(node as int, children@, 0, old_self.spec_node_of()[o] as int, s) { 1nat } else { 0nat })).len() - 1 ==> mut_ref_future(#[trigger] cl[j].1)@ =~= mut_ref_current(cl[j + 1].1)@
                    }) by {
                    assert(old_self.entity_ok(o));
                    if old_self.spec_node_of().contains_key(o) && old_self.spec_node_of()[o] == node {
                        assert(old_self.spec_entity_of_node()[node as int] == o);
                        assert(o == eid);
                    }
                    assert(repeat_calls(stage_round(registry@, old_self.entity(o), stage_id), 0) =~= Seq::<(F, Seq<DataGroupIndexingType>)>::empty());
                    lemma_chain_empty::<W, D, F>(ctx, o, old_self.entity(o).spec_datagroups());
                }
            }
        }
        let mut k: usize = 0;
        while k < children.len()
            invariant
                k <= children@.len(),
                self.wf(),
                self.stage_can_run(registry, ctx, stage_id),
                Self::same_but_datagroups(&old_self, self),
                node < old_self.spec_hierarchy().len(),
                children@ == old_self.spec_hierarchy().children_of(node as int),
                old_self.wf(),
                old_self == *old(self),
                h == old_self.spec_hierarchy(),
                s == stage_id as int,
                forall|o: EntityID| #[trigger] old_self.spec_entities().contains_key(o) ==>
                    (exists|cl: Seq<(&[DataGroupIndexingType], &mut Vec<D>)>| #![trigger cl.len()] {
                        &&& cl.len() == (repeat_calls(stage_round(registry@, old_self.entity(o), stage_id), if old_self.spec_node_of().contains_key(o) && old_self.spec_hierarchy().reaches_through(node as int, children@, k as int, old_self.spec_node_of()[o] as int, stage_id as int) { 1nat } else { 0nat })).len()
                        &&& (repeat_calls(stage_round(registry@, old_self.entity(o), stage_id), if old_self.spec_node_of().contains_key(o) && old_self.spec_hierarchy().reaches_through(node as int, children@, k as int, old_self.spec_node_of()[o] as int, stage_id as int) { 1nat } else { 0nat })).len() == 0 ==> self.entity(o).spec_datagroups() =~= old_self.entity(o).spec_datagroups()
                        &&& (repeat_calls(stage_round(registry@, old_self.entity(o), stage_id), if old_self.spec_node_of().contains_key(o) && old_self.spec_hierarchy().reaches_through(node as int, children@, k as int, old_self.spec_node_of()[o] as int, stage_id as int) { 1nat } else { 0nat })).len() > 0 ==> mut_ref_current(cl[0].1)@ =~= old_self.entity(o).spec_datagroups() && mut_ref_future(cl[(repeat_calls(stage_round(registry@, old_self.entity(o), stage_id), if old_self.spec_node_of().contains_key(o) && old_self.spec_hierarchy().reaches_through(node as int, children@, k as int, old_self.spec_node_of()[o] as int, stage_id as int) { 1nat } else { 0nat })).len() - 1].1)@ =~= self.entity(o).spec_datagroups()
                        &&& forall|j: int| #![trigger cl[j]] 0 <= j < (repeat_calls(stage_round(registry@, old_self.entity(o), stage_id), if old_self.spec_node_of().contains_key(o) && old_self.spec_hierarchy().reaches_through(node as int, children@, k as int, old_self.spec_node_of()[o] as int, stage_id as int) { 1nat } else { 0nat })).len() ==> (cl[j].0)@ === (repeat_calls(stage_round(registry@, old_self.entity(o), stage_id), if old_self.spec_node_of().contains_key(o) && old_self.spec_hierarchy().reaches_through(node as int, children@, k as int, old_self.spec_node_of()[o] as int, stage_id as int) { 1nat } else { 0nat }))[j].1 && call_ensures((repeat_calls(stage_round(registry@, old_self.entity(o), stage_id), if old_self.spec_node_of().contains_key(o) && old_self.spec_hierarchy().reaches_through(node as int, children@, k as int, old_self.spec_node_of()[o] as int, stage_id as int) { 1nat } else { 0nat }))[j].0, (ctx, o, cl[j].0, cl[j].1), ())
                        &&& forall|j: int| 0 <= j < (repeat_calls(stage_round(registry@, old_self.entity(o), stage_id), if old_self.spec_node_of().contains_key(o) && old_self.spec_hierarchy().reaches_through(node as int, children@, k as int, old_self.spec_node_of()[o] as int, stage_id as int) { 1nat } else { 0nat })).len() - 1 ==> mut_ref_future(#[trigger] cl[j].1)@ =~= mut_ref_current(cl[j + 1].1)@
                    }),
            decreases children@.len() - k,
        {
            let c = children[k];
            proof {
                assert(h.node_ok(node as int));
                assert(c < h.len());
                assert(h.parent_of(c as int) == Some(node));
                h.lemma_child_subtree_smaller(node, c);
            }
            let ghost pre = *self;
            if self.hierarchy.get_stage_count(c, stage_id) > 0 {
                proof {
                    assert(self.spec_hierarchy() == old_self.spec_hierarchy());
                    assert(self.spec_hierarchy().subtree(c as int).len() < old_self.spec_hierarchy().subtree(node as int).len());
                }
                self.run_hierarchy(c, registry, ctx, stage_id);
                proof {
                    Self::lemma_same_but_datagroups_trans(&old_self, &pre, self);
                    assert forall|o: EntityID| #[trigger] old_self.spec_entities().contains_key(o) implies
                        (exists|cl: Seq<(&[DataGroupIndexingType], &mut Vec<D>)>| #![trigger cl.len()] {
                            &&& cl.len() == (repeat_calls(stage_round(registry@, old_self.entity(o), stage_id), if old_self.spec_node_of().contains_key(o) && h.reaches_through(node as int, children@, k + 1, old_self.spec_node_of()[o] as int, s) { 1nat } else { 0nat })).len()
                            &&& (repeat_calls(stage_round(registry@, old_self.entity(o), stage_id), if old_self.spec_node_of().contains_key(o) && h.reaches_through(node as int, children@, k + 1, old_self.spec_node_of()[o] as int, s) { 1nat } else { 0nat })).len() == 0 ==> self.entity(o).spec_datagroups() =~= old_self.entity(o).spec_datagroups()
                            &&& (repeat_calls(stage_round(registry@, old_self.entity(o), stage_id), if old_self.spec_node_of().contains_key(o) && h.reaches_through(node as int, children@, k + 1, old_self.spec_node_of()[o] as int, s) { 1nat } else { 0nat })).len() > 0 ==> mut_ref_current(cl[0].1)@ =~= old_self.entity(o).spec_datagroups() && mut_ref_future(cl[(repeat_calls(stage_round(registry@, old_self.entity(o), stage_id), if old_self.spec_node_of().contains_key(o) && h.reaches_through(node as int, children@, k + 1, old_self.spec_node_of()[o] as int, s) { 1nat } else { 0nat })).len() - 1].1)@ =~= self.entity(o).spec_datagroups()
                            &&& forall|j: int| #![trigger cl[j]] 0 <= j < (repeat_calls(stage_round(registry@, old_self.entity(o), stage_id), if old_self.spec_node_of().contains_key(o) && h.reaches_through(node as int, children@, k + 1, old_self.spec_node_of()[o] as int, s) { 1nat } else { 0nat })).len() ==> (cl[j].0)@ === (repeat_calls(stage_round(registry@, old_self.entity(o), stage_id), if old_self.spec_node_of().contains_key(o) && h.reaches_through(node as int, children@, k + 1, old_self.spec_node_of()[o] as int, s) { 1nat } else { 0nat }))[j].1 && call_ensures((repeat_calls(stage_round(registry@, old_self.entity(o), stage_id), if old_self.spec_node_of().contains_key(o) && h.reaches_through(node as int, children@, k + 1, old_self.spec_node_of()[o] as int, s) { 1nat } else { 0nat }))[j].0, (ctx, o, cl[j].0, cl[j].1), ())
                            &&& forall|j: int| 0 <= j < (repeat_calls(stage_round(registry@, old_self.entity(o), stage_id), if old_self.spec_node_of().contains_key(o) && h.reaches_through(node as int, children@, k + 1, old_self.spec_node_of()[o] as int, s) { 1nat } else { 0nat })).len() - 1 ==> mut_ref_future(#[trigger] cl[j].1)@ =~= mut_ref_current(cl[j + 1].1)@
                        }) by {
                        assert(old_self.entity_ok(o));
                        assert(pre.spec_entities().contains_key(o));
                        assert(same_but_datagroups(old_self.entity(o), pre.entity(o)));
                        let r = stage_round(registry@, old_self.entity(o), stage_id);
                        assert(stage_calls(pre.entity(o), stage_id) == stage_calls(old_self.entity(o), stage_id));
                        assert(stage_functions(registry@, pre.entity(o), stage_id) == stage_functions(registry@, old_self.entity(o), stage_id));
                        assert(stage_call_indices(pre.entity(o), stage_id) == stage_call_indices(old_self.entity(o), stage_id));
                        assert(stage_round(registry@, pre.entity(o), stage_id) == r);
                        let y = old_self.spec_node_of()[o] as int;
                        let t0: nat = if old_self.spec_node_of().contains_key(o) && h.reaches_through(node as int, children@, k as int, old_self.spec_node_of()[o] as int, s) { 1nat } else { 0nat };
                        let cv: nat = if pre.spec_node_of().contains_key(o) && pre.spec_hierarchy().reaches_in_stage(c as int, pre.spec_node_of()[o] as int, stage_id as int) { 1nat } else { 0nat };
                        let t1: nat = if old_self.spec_node_of().contains_key(o) && h.reaches_through(node as int, children@, k + 1, old_self.spec_node_of()[o] as int, s) { 1nat } else { 0nat };
                        if old_self.spec_node_of().contains_key(o) {
                            if h.reaches_in_stage(c as int, y, s) {
                                h.lemma_reaches_child(node, c, y, s);
                                assert forall|m: int| 0 <= m < k && h.stage_count_of(children@[m] as int, s) > 0
                                    implies !#[trigger] h.reaches_in_stage(children@[m] as int, y, s) by {
                                    if h.reaches_in_stage(children@[m] as int, y, s) {
                                        assert(children@[m] < h.len());
                                        assert(h.parent_of(children@[m] as int) == Some(node));
                                        h.lemma_reaches_unique(node, children@[m], c, y, s);
                                        assert(children@[m] == children@[k as int]);
                                    }
                                }
                                assert(!h.reaches_through(node as int, children@, k as int, y, s));
                                assert(h.reaches_through(node as int, children@, k + 1, y, s));
                            } else {
                                if h.reaches_through(node as int, children@, k + 1, y, s) {
                                    assert(h.reaches_through(node as int, children@, k as int, y, s));
                                }
                                if h.reaches_through(node as int, children@, k as int, y, s) {
                                    assert(h.reaches_through(node as int, children@, k + 1, y, s));
                                }
                            }
                        }
                        assert(t1 == t0 + cv);
                        lemma_chain_concat(repeat_calls(r, t0), repeat_calls(r, cv), ctx, o, old_self.entity(o).spec_datagroups(),
                            pre.entity(o).spec_datagroups(), self.entity(o).spec_datagroups());
                        lemma_repeat_calls_add(r, t0, cv);
                    }
                }
            } else {
                proof {
                    assert forall|o: EntityID| #[trigger] old_self.spec_entities().contains_key(o) implies
                        (exists|cl: Seq<(&[DataGroupIndexingType], &mut Vec<D>)>| #![trigger cl.len()] {
                            &&& cl.len() == (repeat_calls(stage_round(registry@, old_self.entity(o), stage_id), if old_self.spec_node_of().contains_key(o) && h.reaches_through(node as int, children@, k + 1, old_self.spec_node_of()[o] as int, s) { 1nat } else { 0nat })).len()
                            &&& (repeat_calls(stage_round(registry@, old_self.entity(o), stage_id), if old_self.spec_node_of().contains_key(o) && h.reaches_through(node as int, children@, k + 1, old_self.spec_node_of()[o] as int, s) { 1nat } else { 0nat })).len() == 0 ==> self.entity(o).spec_datagroups() =~= old_self.entity(o).spec_datagroups()
                            &&& (repeat_calls(stage_round(registry@, old_self.entity(o), stage_id), if old_self.spec_node_of().contains_key(o) && h.reaches_through(node as int, children@, k + 1, old_self.spec_node_of()[o] as int, s) { 1nat } else { 0nat })).len() > 0 ==> mut_ref_current(cl[0].1)@ =~= old_self.entity(o).spec_datagroups() && mut_ref_future(cl[(repeat_calls(stage_round(registry@, old_self.entity(o), stage_id), if old_self.spec_node_of().contains_key(o) && h.reaches_through(node as int, children@, k + 1, old_self.spec_node_of()[o] as int, s) { 1nat } else { 0nat })).len() - 1].1)@ =~= self.entity(o).spec_datagroups()
                            &&& forall|j: int| #![trigger cl[j]] 0 <= j < (repeat_calls(stage_round(registry@, old_self.entity(o), stage_id), if old_self.spec_node_of().contains_key(o) && h.reaches_through(node as int, children@, k + 1, old_self.spec_node_of()[o] as int, s) { 1nat } else { 0nat })).len() ==> (cl[j].0)@ === (repeat_calls(stage_round(registry@, old_self.entity(o), stage_id), if old_self.spec_node_of().contains_key(o) && h.reaches_through(node as int, children@, k + 1, old_self.spec_node_of()[o] as int, s) { 1nat } else { 0nat }))[j].1 && call_ensures((repeat_calls(stage_round(registry@, old_self.entity(o), stage_id), if old_self.spec_node_of().contains_key(o) && h.reaches_through(node as int, children@, k + 1, old_self.spec_node_of()[o] as int, s) { 1nat } else { 0nat }))[j].0, (ctx, o, cl[j].0, cl[j].1), ())
                            &&& forall|j: int| 0 <= j < (repeat_calls(stage_round(registry@, old_self.entity(o), stage_id), if old_self.spec_node_of().contains_key(o) && h.reaches_through(node as int, children@, k + 1, old_self.spec_node_of()[o] as int, s) { 1nat } else { 0nat })).len() - 1 ==> mut_ref_future(#[trigger] cl[j].1)@ =~= mut_ref_current(cl[j + 1].1)@
                        }) by {
                        if old_self.spec_node_of().contains_key(o) {
                            let y = old_self.spec_node_of()[o] as int;
                            if h.reaches_through(node as int, children@, k + 1, y, s) {
                                assert(h.reaches_through(node as int, children@, k as int, y, s));
                            }
                            if h.reaches_through(node as int, children@, k as int, y, s) {
                                assert(h.reaches_through(node as int, children@, k + 1, y, s));
                            }
                        }
                    }
                }
            }
            k = k + 1;
        }
        proof {
            assert forall|o: EntityID| #[trigger] old_self.spec_entities().contains_key(o) implies
                (exists|cl: Seq<(&[DataGroupIndexingType], &mut Vec<D>)>| #![trigger cl.len()] {
                    &&& cl.len() == (repeat_calls(stage_round(registry@, old_self.entity(o), stage_id), if old_self.spec_node_of().contains_key(o) && old_self.spec_hierarchy().reaches_in_stage(node as int, old_self.spec_node_of()[o] as int, stage_id as int) { 1nat } else { 0nat })).len()
                    &&& (repeat_calls(stage_round(registry@, old_self.entity(o), stage_id), if old_self.spec_node_of().contains_key(o) && old_self.spec_hierarchy().reaches_in_stage(node as int, old_self.spec_node_of()[o] as int, stage_id as int) { 1nat } else { 0nat })).len() == 0 ==> self.entity(o).spec_datagroups() =~= old_self.entity(o).spec_datagroups()
                    &&& (repeat_calls(stage_round(registry@, old_self.entity(o), stage_id), if old_self.spec_node_of().contains_key(o) && old_self.spec_hierarchy().reaches_in_stage(node as int, old_self.spec_node_of()[o] as int, stage_id as int) { 1nat } else { 0nat })).len() > 0 ==> mut_ref_current(cl[0].1)@ =~= old_self.entity(o).spec_datagroups() && mut_ref_future(cl[(repeat_calls(stage_round(registry@, old_self.entity(o), stage_id), if old_self.spec_node_of().contains_key(o) && old_self.spec_hierarchy().reaches_in_stage(node as int, old_self.spec_node_of()[o] as int, stage_id as int) { 1nat } else { 0nat })).len() - 1].1)@ =~= self.entity(o).spec_datagroups()
                    &&& forall|j: int| #![trigger cl[j]] 0 <= j < (repeat_calls(stage_round(registry@, old_self.entity(o), stage_id), if old_self.spec_node_of().contains_key(o) && old_self.spec_hierarchy().reaches_in_stage(node as int, old_self.spec_node_of()[o] as int, stage_id as int) { 1nat } else { 0nat })).len() ==> (cl[j].0)@ === (repeat_calls(stage_round(registry@, old_self.entity(o), stage_id), if old_self.spec_node_of().contains_key(o) && old_self.spec_hierarchy().reaches_in_stage(node as int, old_self.spec_node_of()[o] as int, stage_id as int) { 1nat } else { 0nat }))[j].1 && call_ensures((repeat_calls(stage_round(registry@, old_self.entity(o), stage_id), if old_self.spec_node_of().contains_key(o) && old_self.spec_hierarchy().reaches_in_stage(node as int, old_self.spec_node_of()[o] as int, stage_id as int) { 1nat } else { 0nat }))[j].0, (ctx, o, cl[j].0, cl[j].1), ())
                    &&& forall|j: int| 0 <= j < (repeat_calls(stage_round(registry@, old_self.entity(o), stage_id), if old_self.spec_node_of().contains_key(o) && old_self.spec_hierarchy().reaches_in_stage(node as int, old_self.spec_node_of()[o] as int, stage_id as int) { 1nat } else { 0nat })).len() - 1 ==> mut_ref_future(#[trigger] cl[j].1)@ =~= mut_ref_current(cl[j + 1].1)@
                }) by {
                assert(old_self.entity_ok(o));
                if old_self.spec_node_of().contains_key(o) {
                    let y = old_self.spec_node_of()[o] as int;
                    assert(h.node_ok(node as int));
                    if y != node as int {
                        if h.reaches_in_stage(node as int, y, s) {
                            h.lemma_reaches_split(node, y, s);
                        }
                        if h.reaches_through(node as int, children@, children@.len() as int, y, s) {
                            let m = choose|m: int| 0 <= m < children@.len() && h.stage_count_of(children@[m] as int, s) > 0
                                && #[trigger] h.reaches_in_stage(children@[m] as int, y, s);
                            h.lemma_reaches_child(node, children@[m], y, s);
                        }
                    }
                    assert(h.reaches_through(node as int, children@, k as int, y, s) == h.reaches_in_stage(node as int, y, s));
                }
            }
        }
    }

    /// Run stage `stage_id`: each entity scheduled in the stage that is still
    /// live runs its systems of the stage, a non-spatial one on its own when
    /// it has systems for the stage, a spatial root with its whole hierarchy,
    /// parents before children, when some entity of it runs in the stage.
    /// Each entity goes through one round of its calls of the stage, as
    /// `Entity::run_stage` makes them, for each time the stage's list gets to
    /// it (`stage_visits`), and nothing else changes its datagroups; only
    /// datagroups change.
    #[verifier::spinoff_prover]
    pub fn run_stage<W, F, G>(&mut self, stage_id: StageID, registry: &LocalSystemRegistry<F, G>, ctx: &W)
        where F: Fn(&W, EntityID, &[DataGroupIndexingType], &mut Vec<D>)
        requires
            old(self).wf(),
            old(self).stage_can_run(registry, ctx, stage_id),
        ensures
            final(self).wf(),
            Self::same_but_datagroups(old(self), final(self)),
            old(self).gs_covered() ==> final(self).gs_covered(),
            forall|o: EntityID| #[trigger] old(self).spec_entities().contains_key(o) ==>
                (exists|cl: Seq<(&[DataGroupIndexingType], &mut Vec<D>)>| #![trigger cl.len()] {
                    &&& cl.len() == (repeat_calls(stage_round(registry@, old(self).entity(o), stage_id), old(self).stage_visits(old(self).spec_stage_entities(stage_id as int), old(self).spec_stage_entities(stage_id as int).len(), stage_id, o))).len()
                    &&& (repeat_calls(stage_round(registry@, old(self).entity(o), stage_id), old(self).stage_visits(old(self).spec_stage_entities(stage_id as int), old(self).spec_stage_entities(stage_id as int).len(), stage_id, o))).len() == 0 ==> final(self).entity(o).spec_datagroups() =~= old(self).entity(o).spec_datagroups()
                    &&& (repeat_calls(stage_round(registry@, old(self).entity(o), stage_id), old(self).stage_visits(old(self).spec_stage_entities(stage_id as int), old(self).spec_stage_entities(stage_id as int).len(), stage_id, o))).len() > 0 ==> mut_ref_current(cl[0].1)@ =~= old(self).entity(o).spec_datagroups() && mut_ref_future(cl[(repeat_calls(stage_round(registry@, old(self).entity(o), stage_id), old(self).stage_visits(old(self).spec_stage_entities(stage_id as int), old(self).spec_stage_entities(stage_id as int).len(), stage_id, o))).len() - 1].1)@ =~= final(self).entity(o).spec_datagroups()
                    &&& forall|j: int| #![trigger cl[j]] 0 <= j < (repeat_calls(stage_round(registry@, old(self).entity(o), stage_id), old(self).stage_visits(old(self).spec_stage_entities(stage_id as int), old(self).spec_stage_entities(stage_id as int).len(), stage_id, o))).len() ==> (cl[j].0)@ === (repeat_calls(stage_round(registry@, old(self).entity(o), stage_id), old(self).stage_visits(old(self).spec_stage_entities(stage_id as int), old(self).spec_stage_entities(stage_id as int).len(), stage_id, o)))[j].1 && call_ensures((repeat_calls(stage_round(registry@, old(self).entity(o), stage_id), old(self).stage_visits(old(self).spec_stage_entities(stage_id as int), old(self).spec_stage_entities(stage_id as int).len(), stage_id, o)))[j].0, (ctx, o, cl[j].0, cl[j].1), ())
                    &&& forall|j: int| 0 <= j < (repeat_calls(stage_round(registry@, old(self).entity(o), stage_id), old(self).stage_visits(old(self).spec_stage_entities(stage_id as int), old(self).spec_stage_entities(stage_id as int).len(), stage_id, o))).len() - 1 ==> mut_ref_future(#[trigger] cl[j].1)@ =~= mut_ref_current(cl[j + 1].1)@
                }),
    {
        let ghost old_self = *self;
        let list = copy_ptrs(&self.entities_stages[stage_id as usize]);
        let mut k: usize = 0;
        proof {
            assert forall|s: int| 0 <= s < STAGE_COUNT implies #[trigger] old_self.spec_stage_entities(s) == self.spec_stage_entities(s) by {}
            assert forall|g: int| 0 <= g < old_self.spec_gs_len() implies #[trigger] old_self.spec_gs_entities(g) == self.spec_gs_entities(g) by {}
            assert forall|o: EntityID| #[trigger] old_self.spec_entities().contains_key(o) implies same_but_datagroups(old_self.entity(o), self.entity(o)) by {}
            assert forall|o: EntityID| #[trigger] old_self.spec_entities().contains_key(o) implies
                (exists|cl: Seq<(&[DataGroupIndexingType], &mut Vec<D>)>| #![trigger cl.len()] {
                    &&& cl.len() == (repeat_calls(stage_round(registry@, old_self.entity(o), stage_id), old_self.stage_visits(list@, k as nat, stage_id, o))).len()
                    &&& (repeat_calls(stage_round(registry@, old_self.entity(o), stage_id), old_self.stage_visits(list@, k as nat, stage_id, o))).len() == 0 ==> self.entity(o).spec_datagroups() =~= old_self.entity(o).spec_datagroups()
                    &&& (repeat_calls(stage_round(registry@, old_self.entity(o), stage_id), old_self.stage_visits(list@, k as nat, stage_id, o))).len() > 0 ==> mut_ref_current(cl[0].1)@ =~= old_self.entity(o).spec_datagroups() && mut_ref_future(cl[(repeat_calls(stage_round(registry@, old_self.entity(o), stage_id), old_self.stage_visits(list@, k as nat, stage_id, o))).len() - 1].1)@ =~= self.entity(o).spec_datagroups()
                    &&& forall|j: int| #![trigger cl[j]] 0 <= j < (repeat_calls(stage_round(registry@, old_self.entity(o), stage_id), old_self.stage_visits(list@, k as nat, stage_id, o))).len() ==> (cl[j].0)@ === (repeat_calls(stage_round(registry@, old_self.entity(o), stage_id), old_self.stage_visits(list@, k as nat, stage_id, o)))[j].1 && call_ensures((repeat_calls(stage_round(registry@, old_self.entity(o), stage_id), old_self.stage_visits(list@, k as nat, stage_id, o)))[j].0, (ctx, o, cl[j].0, cl[j].1), ())
                    &&& forall|j: int| 0 <= j < (repeat_calls(stage_round(registry@, old_self.entity(o), stage_id), old_self.stage_visits(list@, k as nat, stage_id, o))).len() - 1 ==> mut_ref_future(#[trigger] cl[j].1)@ =~= mut_ref_current(cl[j + 1].1)@
                }) by {
                assert(repeat_calls(stage_round(registry@, old_self.entity(o), stage_id), 0) =~= Seq::<(F, Seq<DataGroupIndexingType>)>::empty());
                lemma_chain_empty::<W, D, F>(ctx, o, old_self.entity(o).spec_datagroups());
            }
        }
        while k < list.len()
            invariant
                k <= list@.len(),
                self.wf(),
                self.stage_can_run(registry, ctx, stage_id),
                Self::same_but_datagroups(&old_self, self),
                old_self.wf(),
                list@ == old_self.spec_stage_entities(stage_id as int),
                forall|o: EntityID| #[trigger] old_self.spec_entities().contains_key(o) ==>
                    (exists|cl: Seq<(&[DataGroupIndexingType], &mut Vec<D>)>| #![trigger cl.len()] {
                        &&& cl.len() == (repeat_calls(stage_round(registry@, old_self.entity(o), stage_id), old_self.stage_visits(list@, k as nat, stage_id, o))).len()
                        &&& (repeat_calls(stage_round(registry@, old_self.entity(o), stage_id), old_self.stage_visits(list@, k as nat, stage_id, o))).len() == 0 ==> self.entity(o).spec_datagroups() =~= old_self.entity(o).spec_datagroups()
                        &&& (repeat_calls(stage_round(registry@, old_self.entity(o), stage_id), old_self.stage_visits(list@, k as nat, stage_id, o))).len() > 0 ==> mut_ref_current(cl[0].1)@ =~= old_self.entity(o).spec_datagroups() && mut_ref_future(cl[(repeat_calls(stage_round(registry@, old_self.entity(o), stage_id), old_self.stage_visits(list@, k as nat, stage_id, o))).len() - 1].1)@ =~= self.entity(o).spec_datagroups()
                        &&& forall|j: int| #![trigger cl[j]] 0 <= j < (repeat_calls(stage_round(registry@, old_self.entity(o), stage_id), old_self.stage_visits(list@, k as nat, stage_id, o))).len() ==> (cl[j].0)@ === (repeat_calls(stage_round(registry@, old_self.entity(o), stage_id), old_self.stage_visits(list@, k as nat, stage_id, o)))[j].1 && call_ensures((repeat_calls(stage_round(registry@, old_self.entity(o), stage_id), old_self.stage_visits(list@, k as nat, stage_id, o)))[j].0, (ctx, o, cl[j].0, cl[j].1), ())
                        &&& forall|j: int| 0 <= j < (repeat_calls(stage_round(registry@, old_self.entity(o), stage_id), old_self.stage_visits(list@, k as nat, stage_id, o))).len() - 1 ==> mut_ref_future(#[trigger] cl[j].1)@ =~= mut_ref_current(cl[j + 1].1)@
                    }),
            decreases list@.len() - k,
        {
            let ptr = list[k];
            let ghost pre = *self;
            let ghost pv = list@[k as int];
            let mut ran = false;
            if self.allocator.holds(&ptr) {
                let id = self.allocator.get(&ptr).get_id();
                let in_world = match self.entities.get(&id) {
                    Some(p) => *p == ptr,
                    None => false,
                };
                if in_world {
                    proof {
                        assert(self.entity_ok(id));
                        assert(old_self.entity_ok(id));
                    }
                    let spatial = self.allocator.get(&ptr).is_spatial_entity();
                    if !spatial {
                        self.run_entity(id, registry, ctx, stage_id);
                        ran = true;
                        proof {
                            Self::lemma_same_but_datagroups_trans(&old_self, &pre, self);
                    assert forall|o: EntityID| #[trigger] old_self.spec_entities().contains_key(o) implies
                        (exists|cl: Seq<(&[DataGroupIndexingType], &mut Vec<D>)>| #![trigger cl.len()] {
                            &&& cl.len() == (repeat_calls(stage_round(registry@, old_self.entity(o), stage_id), old_self.stage_visits(list@, (k + 1) as nat, stage_id, o))).len()
                            &&& (repeat_calls(stage_round(registry@, old_self.entity(o), stage_id), old_self.stage_visits(list@, (k + 1) as nat, stage_id, o))).len() == 0 ==> self.entity(o).spec_datagroups() =~= old_self.entity(o).spec_datagroups()
                            &&& (repeat_calls(stage_round(registry@, old_self.entity(o), stage_id), old_self.stage_visits(list@, (k + 1) as nat, stage_id, o))).len() > 0 ==> mut_ref_current(cl[0].1)@ =~= old_self.entity(o).spec_datagroups() && mut_ref_future(cl[(repeat_calls(stage_round(registry@, old_self.entity(o), stage_id), old_self.stage_visits(list@, (k + 1) as nat, stage_id, o))).len() - 1].1)@ =~= self.entity(o).spec_datagroups()
                            &&& forall|j: int| #![trigger cl[j]] 0 <= j < (repeat_calls(stage_round(registry@, old_self.entity(o), stage_id), old_self.stage_visits(list@, (k + 1) as nat, stage_id, o))).len() ==> (cl[j].0)@ === (repeat_calls(stage_round(registry@, old_self.entity(o), stage_id), old_self.stage_visits(list@, (k + 1) as nat, stage_id, o)))[j].1 && call_ensures((repeat_calls(stage_round(registry@, old_self.entity(o), stage_id), old_self.stage_visits(list@, (k + 1) as nat, stage_id, o)))[j].0, (ctx, o, cl[j].0, cl[j].1), ())
                            &&& forall|j: int| 0 <= j < (repeat_calls(stage_round(registry@, old_self.entity(o), stage_id), old_self.stage_visits(list@, (k + 1) as nat, stage_id, o))).len() - 1 ==> mut_ref_future(#[trigger] cl[j].1)@ =~= mut_ref_current(cl[j + 1].1)@
                        }) by {
                        assert(old_self.entity_ok(o));
                        assert(pre.spec_entities().contains_key(o));
                        assert(same_but_datagroups(old_self.entity(o), pre.entity(o)));
                        let r = stage_round(registry@, old_self.entity(o), stage_id);
                        assert(stage_calls(pre.entity(o), stage_id) == stage_calls(old_self.entity(o), stage_id));
                        assert(stage_functions(registry@, pre.entity(o), stage_id) == stage_functions(registry@, old_self.entity(o), stage_id));
                        assert(stage_call_indices(pre.entity(o), stage_id) == stage_call_indices(old_self.entity(o), stage_id));
                        assert(stage_round(registry@, pre.entity(o), stage_id) == r);
                        let v0 = old_self.stage_visits(list@, k as nat, stage_id, o);
                        let cv: nat = if o == id { 1nat } else { 0nat };
                        if o != id && old_self.spec_entities()[o] == ptr {
                            assert(old_self.entity(o) == old_self.entity(id));
                        }
                        if exists|q: EntityID| #[trigger] old_self.spec_entities().contains_key(q) && old_self.spec_entities()[q] == ptr
                            && old_self.spec_node_of().contains_key(q)
                            && Self::node_runs_in(old_self.spec_hierarchy(), old_self.spec_node_of()[q] as int, stage_id as int)
                            && old_self.spec_node_of().contains_key(o)
                            && old_self.spec_hierarchy().reaches_in_stage(old_self.spec_node_of()[q] as int, old_self.spec_node_of()[o] as int, stage_id as int) {
                            let q = choose|q: EntityID| #[trigger] old_self.spec_entities().contains_key(q) && old_self.spec_entities()[q] == ptr
                                && old_self.spec_node_of().contains_key(q)
                                && Self::node_runs_in(old_self.spec_hierarchy(), old_self.spec_node_of()[q] as int, stage_id as int)
                                && old_self.spec_node_of().contains_key(o)
                                && old_self.spec_hierarchy().reaches_in_stage(old_self.spec_node_of()[q] as int, old_self.spec_node_of()[o] as int, stage_id as int);
                            assert(old_self.entity_ok(q));
                            assert(old_self.entity(q) == old_self.entity(id));
                        }
                        assert(old_self.stage_visit(list@[k as int], stage_id, o) == cv);
                        assert(old_self.stage_visits(list@, (k + 1) as nat, stage_id, o) == v0 + cv);
                        lemma_chain_concat(repeat_calls(r, v0), repeat_calls(r, cv), ctx, o, old_self.entity(o).spec_datagroups(),
                            pre.entity(o).spec_datagroups(), self.entity(o).spec_datagroups());
                        lemma_repeat_calls_add(r, v0, cv);
                    }
                        }
                    } else {
                        let node = match self.node_of.get(&id) {
                            Some(n) => *n,
                            None => {
                                proof {
                                    assert(false);
                                }
                                return;
                            },
                        };
                        if self.hierarchy.should_run_in_stage(node, stage_id) {
                            self.run_hierarchy(node, registry, ctx, stage_id);
                            ran = true;
                            proof {
                                Self::lemma_same_but_datagroups_trans(&old_self, &pre, self);
                    assert forall|o: EntityID| #[trigger] old_self.spec_entities().contains_key(o) implies
                        (exists|cl: Seq<(&[DataGroupIndexingType], &mut Vec<D>)>| #![trigger cl.len()] {
                            &&& cl.len() == (repeat_calls(stage_round(registry@, old_self.entity(o), stage_id), old_self.stage_visits(list@, (k + 1) as nat, stage_id, o))).len()
                            &&& (repeat_calls(stage_round(registry@, old_self.entity(o), stage_id), old_self.stage_visits(list@, (k + 1) as nat, stage_id, o))).len() == 0 ==> self.entity(o).spec_datagroups() =~= old_self.entity(o).spec_datagroups()
                            &&& (repeat_calls(stage_round(registry@, old_self.entity(o), stage_id), old_self.stage_visits(list@, (k + 1) as nat, stage_id, o))).len() > 0 ==> mut_ref_current(cl[0].1)@ =~= old_self.entity(o).spec_datagroups() && mut_ref_future(cl[(repeat_calls(stage_round(registry@, old_self.entity(o), stage_id), old_self.stage_visits(list@, (k + 1) as nat, stage_id, o))).len() - 1].1)@ =~= self.entity(o).spec_datagroups()
                            &&& forall|j: int| #![trigger cl[j]] 0 <= j < (repeat_calls(stage_round(registry@, old_self.entity(o), stage_id), old_self.stage_visits(list@, (k + 1) as nat, stage_id, o))).len() ==> (cl[j].0)@ === (repeat_calls(stage_round(registry@, old_self.entity(o), stage_id), old_self.stage_visits(list@, (k + 1) as nat, stage_id, o)))[j].1 && call_ensures((repeat_calls(stage_round(registry@, old_self.entity(o), stage_id), old_self.stage_visits(list@, (k + 1) as nat, stage_id, o)))[j].0, (ctx, o, cl[j].0, cl[j].1), ())
                            &&& forall|j: int| 0 <= j < (repeat_calls(stage_round(registry@, old_self.entity(o), stage_id), old_self.stage_visits(list@, (k + 1) as nat, stage_id, o))).len() - 1 ==> mut_ref_future(#[trigger] cl[j].1)@ =~= mut_ref_current(cl[j + 1].1)@
                        }) by {
                        assert(old_self.entity_ok(o));
                        assert(pre.spec_entities().contains_key(o));
                        assert(same_but_datagroups(old_self.entity(o), pre.entity(o)));
                        let r = stage_round(registry@, old_self.entity(o), stage_id);
                        assert(stage_calls(pre.entity(o), stage_id) == stage_calls(old_self.entity(o), stage_id));
                        assert(stage_functions(registry@, pre.entity(o), stage_id) == stage_functions(registry@, old_self.entity(o), stage_id));
                        assert(stage_call_indices(pre.entity(o), stage_id) == stage_call_indices(old_self.entity(o), stage_id));
                        assert(stage_round(registry@, pre.entity(o), stage_id) == r);
                        let v0 = old_self.stage_visits(list@, k as nat, stage_id, o);
                        let cv: nat = if old_self.spec_node_of().contains_key(o)
                            && old_self.spec_hierarchy().reaches_in_stage(node as int, old_self.spec_node_of()[o] as int, stage_id as int) { 1nat } else { 0nat };
                        if old_self.spec_entities()[o] == ptr {
                            assert(old_self.entity(o) == old_self.entity(id));
                        }
                        if cv == 1 {
                            assert(old_self.spec_entities().contains_key(id) && old_self.spec_entities()[id] == ptr
                                && old_self.spec_node_of().contains_key(id)
                                && Self::node_runs_in(old_self.spec_hierarchy(), old_self.spec_node_of()[id] as int, stage_id as int)
                                && old_self.spec_node_of().contains_key(o)
                                && old_self.spec_hierarchy().reaches_in_stage(old_self.spec_node_of()[id] as int, old_self.spec_node_of()[o] as int, stage_id as int));
                        }
                        if exists|q: EntityID| #[trigger] old_self.spec_entities().contains_key(q) && old_self.spec_entities()[q] == ptr
                            && old_self.spec_node_of().contains_key(q)
                            && Self::node_runs_in(old_self.spec_hierarchy(), old_self.spec_node_of()[q] as int, stage_id as int)
                            && old_self.spec_node_of().contains_key(o)
                            && old_self.spec_hierarchy().reaches_in_stage(old_self.spec_node_of()[q] as int, old_self.spec_node_of()[o] as int, stage_id as int) {
                            let q = choose|q: EntityID| #[trigger] old_self.spec_entities().contains_key(q) && old_self.spec_entities()[q] == ptr
                                && old_self.spec_node_of().contains_key(q)
                                && Self::node_runs_in(old_self.spec_hierarchy(), old_self.spec_node_of()[q] as int, stage_id as int)
                                && old_self.spec_node_of().contains_key(o)
                                && old_self.spec_hierarchy().reaches_in_stage(old_self.spec_node_of()[q] as int, old_self.spec_node_of()[o] as int, stage_id as int);
                            assert(old_self.entity_ok(q));
                            assert(old_self.entity(q) == old_self.entity(id));
                        }
                        assert(old_self.stage_visit(list@[k as int], stage_id, o) == cv);
                        assert(old_self.stage_visits(list@, (k + 1) as nat, stage_id, o) == v0 + cv);
                        lemma_chain_concat(repeat_calls(r, v0), repeat_calls(r, cv), ctx, o, old_self.entity(o).spec_datagroups(),
                            pre.entity(o).spec_datagroups(), self.entity(o).spec_datagroups());
                        lemma_repeat_calls_add(r, v0, cv);
                    }
                            }
                        } else {
                            proof {
                                assert forall|o: EntityID| #[trigger] old_self.spec_entities().contains_key(o) implies
                                    old_self.stage_visit(list@[k as int], stage_id, o) == 0 by {
                                    assert(old_self.entity_ok(o));
                                    if old_self.spec_entities()[o] == ptr {
                                        assert(old_self.entity(o) == old_self.entity(id));
                                    }
                                    if exists|q: EntityID| #[trigger] old_self.spec_entities().contains_key(q) && old_self.spec_entities()[q] == ptr
                                        && old_self.spec_node_of().contains_key(q)
                                        && Self::node_runs_in(old_self.spec_hierarchy(), old_self.spec_node_of()[q] as int, stage_id as int)
                                        && old_self.spec_node_of().contains_key(o)
                                        && old_self.spec_hierarchy().reaches_in_stage(old_self.spec_node_of()[q] as int, old_self.spec_node_of()[o] as int, stage_id as int) {
                                        let q = choose|q: EntityID| #[trigger] old_self.spec_entities().contains_key(q) && old_self.spec_entities()[q] == ptr
                                            && old_self.spec_node_of().contains_key(q)
                                            && Self::node_runs_in(old_self.spec_hierarchy(), old_self.spec_node_of()[q] as int, stage_id as int)
                                            && old_self.spec_node_of().contains_key(o)
                                            && old_self.spec_hierarchy().reaches_in_stage(old_self.spec_node_of()[q] as int, old_self.spec_node_of()[o] as int, stage_id as int);
                                        assert(old_self.entity_ok(q));
                                        assert(old_self.entity(q) == old_self.entity(id));
                                    }
                                }
                            }
                        }
                    }
                } else {
                    proof {
                        assert forall|o: EntityID| #[trigger] old_self.spec_entities().contains_key(o) implies
                            old_self.stage_visit(list@[k as int], stage_id, o) == 0 by {
                            assert(old_self.entity_ok(o));
                            assert(pre.entity_ok(o));
                            if exists|q: EntityID| #[trigger] old_self.spec_entities().contains_key(q) && old_self.spec_entities()[q] == ptr {
                                let q = choose|q: EntityID| #[trigger] old_self.spec_entities().contains_key(q) && old_self.spec_entities()[q] == ptr;
                                assert(pre.entity_ok(q));
                                assert(pre.entity(q).spec_id() == q);
                            }
                        }
                    }
                }
            } else {
                proof {
                    assert forall|o: EntityID| #[trigger] old_self.spec_entities().contains_key(o) implies
                        old_self.stage_visit(list@[k as int], stage_id, o) == 0 by {
                        assert(old_self.entity_ok(o));
                        assert(pre.entity_ok(o));
                        if exists|q: EntityID| #[trigger] old_self.spec_entities().contains_key(q) && old_self.spec_entities()[q] == ptr {
                            let q = choose|q: EntityID| #[trigger] old_self.spec_entities().contains_key(q) && old_self.spec_entities()[q] == ptr;
                            assert(pre.entity_ok(q));
                        }
                    }
                }
            }
            if !ran {
                proof {
                    assert forall|o: EntityID| #[trigger] old_self.spec_entities().contains_key(o) implies
                        (exists|cl: Seq<(&[DataGroupIndexingType], &mut Vec<D>)>| #![trigger cl.len()] {
                            &&& cl.len() == (repeat_calls(stage_round(registry@, old_self.entity(o), stage_id), old_self.stage_visits(list@, (k + 1) as nat, stage_id, o))).len()
                            &&& (repeat_calls(stage_round(registry@, old_self.entity(o), stage_id), old_self.stage_visits(list@, (k + 1) as nat, stage_id, o))).len() == 0 ==> self.entity(o).spec_datagroups() =~= old_self.entity(o).spec_datagroups()
                            &&& (repeat_calls(stage_round(registry@, old_self.entity(o), stage_id), old_self.stage_visits(list@, (k + 1) as nat, stage_id, o))).len() > 0 ==> mut_ref_current(cl[0].1)@ =~= old_self.entity(o).spec_datagroups() && mut_ref_future(cl[(repeat_calls(stage_round(registry@, old_self.entity(o), stage_id), old_self.stage_visits(list@, (k + 1) as nat, stage_id, o))).len() - 1].1)@ =~= self.entity(o).spec_datagroups()
                            &&& forall|j: int| #![trigger cl[j]] 0 <= j < (repeat_calls(stage_round(registry@, old_self.entity(o), stage_id), old_self.stage_visits(list@, (k + 1) as nat, stage_id, o))).len() ==> (cl[j].0)@ === (repeat_calls(stage_round(registry@, old_self.entity(o), stage_id), old_self.stage_visits(list@, (k + 1) as nat, stage_id, o)))[j].1 && call_ensures((repeat_calls(stage_round(registry@, old_self.entity(o), stage_id), old_self.stage_visits(list@, (k + 1) as nat, stage_id, o)))[j].0, (ctx, o, cl[j].0, cl[j].1), ())
                            &&& forall|j: int| 0 <= j < (repeat_calls(stage_round(registry@, old_self.entity(o), stage_id), old_self.stage_visits(list@, (k + 1) as nat, stage_id, o))).len() - 1 ==> mut_ref_future(#[trigger] cl[j].1)@ =~= mut_ref_current(cl[j + 1].1)@
                        }) by {
                        assert(old_self.stage_visit(list@[k as int], stage_id, o) == 0);
                        assert(old_self.stage_visits(list@, (k + 1) as nat, stage_id, o) == old_self.stage_visits(list@, k as nat, stage_id, o));
                    }
                }
            }
            k = k + 1;
        }
        proof {
            if old_self.gs_covered() {
                assert forall|g: GlobalSystemID| g < self.spec_gs_len() implies #[trigger] self.gs_covers(g) by {
                    assert(old_self.gs_covers(g));
                }
            }
        }
    }
}

/// A copy of a list of entity pointers.
fn copy_ptrs(v: &Vec<EntityPtr>) -> (r: Vec<EntityPtr>)
    ensures
        r@ == v@,
{
    let mut r: Vec<EntityPtr> = Vec::new();
    let mut i: usize = 0;
    while i < v.len()
        invariant
            i <= v@.len(),
            r@ == v@.take(i as int),
        decreases v@.len() - i,
    {
        r.push(v[i]);
        i = i + 1;
        proof {
            assert(v@.take(i as int) =~= v@.take(i - 1).push(v@[i - 1]));
        }
    }
    proof {
        assert(v@.take(i as int) =~= v@);
    }
    r
}

/// A copy of a list of node indices.
fn copy_ids(v: &Vec<NodeIndex>) -> (r: Vec<NodeIndex>)
    ensures
        r@ == v@,
{
    let mut r: Vec<NodeIndex> = Vec::new();
    let mut i: usize = 0;
    while i < v.len()
        invariant
            i <= v@.len(),
            r@ == v@.take(i as int),
        decreases v@.len() - i,
    {
        r.push(v[i]);
        i = i + 1;
        proof {
            assert(v@.take(i as int) =~= v@.take(i - 1).push(v@[i - 1]));
        }
    }
    proof {
        assert(v@.take(i as int) =~= v@);
    }
    r
}

} // verus!
