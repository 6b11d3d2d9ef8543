use proto_ecs::common::InitDesc;
use proto_ecs::data_group::{
    DataGroup, DataGroupID, DataGroupInitType, DataGroupMeta, DataGroupMetadataLocator,
    DataGroupRegistry, DataGroupRegistryEntry,
};
use proto_ecs::entity::{Entity, StageRun, INVALID_DATAGROUP_INDEX};
use proto_ecs::entity_description::ArgDescription;
use proto_ecs::entity_allocator::{EntityAllocator, EntityPtr};
use proto_ecs::entity_spawn_desc::{EntitySpawnDescription, SpawnDescriptionError};
use proto_ecs::hierarchy::SpatialHierarchy;
use proto_ecs::global_system_stages::GlobalSystemStages;
use proto_ecs::world::{GlobalSystemLifetime, World};
use proto_ecs::ids::IDLocator;
use proto_ecs::local_systems::{
    Dependency, LocalSystemRegistry, LocalSystemRegistryEntry, SystemClassID, STAGE_COUNT,
};

#[derive(Debug, Clone, PartialEq)]
enum TestDG {
    Animation { clip_name: String, duration: f32 },
    Mesh,
    Number { num: i32 },
    Transform,
}

#[derive(Debug, Clone, PartialEq)]
enum TestArg {
    Animation { clip_name: String, duration: f32 },
    Number { num: i32 },
}

const ANIMATION: DataGroupID = 0;
const MESH: DataGroupID = 1;
const NUMBER: DataGroupID = 2;
const TRANSFORM: DataGroupID = 3;

impl DataGroupMeta for TestDG {
    fn spec_id(&self) -> DataGroupID {
        self.get_id()
    }

    fn get_id(&self) -> DataGroupID {
        match self {
            TestDG::Animation { .. } => ANIMATION,
            TestDG::Mesh => MESH,
            TestDG::Number { .. } => NUMBER,
            TestDG::Transform => TRANSFORM,
        }
    }
}

impl DataGroup<TestArg> for TestDG {
    fn spec_init(&self, init_data: Option<TestArg>) -> Self {
        let mut d = self.clone();
        d.__init__(init_data);
        d
    }

    fn __init__(&mut self, init_data: Option<TestArg>) {
        match (self, init_data) {
            (TestDG::Animation { clip_name, duration }, Some(TestArg::Animation { clip_name: c, duration: d })) => {
                *clip_name = c;
                *duration = d;
            }
            (TestDG::Number { num }, Some(TestArg::Number { num: n })) => {
                *num = n;
            }
            _ => {}
        }
    }
}

struct AnimationDataGroup;
impl DataGroupMetadataLocator for AnimationDataGroup {
    fn get_id() -> DataGroupID {
        ANIMATION
    }
    fn spec_get_id() -> DataGroupID {
        ANIMATION
    }
}

struct MeshDataGroup;
impl DataGroupMetadataLocator for MeshDataGroup {
    fn get_id() -> DataGroupID {
        MESH
    }
    fn spec_get_id() -> DataGroupID {
        MESH
    }
}

struct TestNumberDataGroup;
impl DataGroupMetadataLocator for TestNumberDataGroup {
    fn get_id() -> DataGroupID {
        NUMBER
    }
    fn spec_get_id() -> DataGroupID {
        NUMBER
    }
}

type Factory = fn() -> TestDG;
type SystemFn = fn(&(), u64, &[u16], &mut Vec<TestDG>);
type SetId = fn(SystemClassID);

fn make_animation() -> TestDG {
    TestDG::Animation { clip_name: String::new(), duration: 0.0 }
}
fn make_mesh() -> TestDG {
    TestDG::Mesh
}
fn make_number() -> TestDG {
    TestDG::Number { num: 0 }
}
fn make_transform() -> TestDG {
    TestDG::Transform
}

fn dg_registry() -> DataGroupRegistry<Factory> {
    let mut r: DataGroupRegistry<Factory> = DataGroupRegistry::new();
    let entries: [(&'static str, Factory, InitDesc); 4] = [
        ("AnimationDataGroup", make_animation, InitDesc::Arg),
        ("MeshDataGroup", make_mesh, InitDesc::NoInit),
        ("TestNumberDataGroup", make_number, InitDesc::Arg),
        ("Transform", make_transform, InitDesc::NoInit),
    ];
    for (name, factory, init_desc) in entries {
        r.register(DataGroupRegistryEntry { name, name_crc: 0, factory_func: factory, id: 0, init_desc });
    }
    r
}

fn no_id(_: SystemClassID) {}

fn system(name: &'static str, deps: Vec<Dependency>, stages: &[(usize, SystemFn)]) -> LocalSystemRegistryEntry<SystemFn, SetId> {
    let mut functions: [Option<SystemFn>; STAGE_COUNT] = [None; STAGE_COUNT];
    for (stage, f) in stages {
        functions[*stage] = Some(*f);
    }
    LocalSystemRegistryEntry {
        id: 0,
        name,
        name_crc: 0,
        dependencies: deps,
        functions,
        before: vec![],
        after: vec![],
        set_id_fn: no_id,
    }
}

fn number_of(dgs: &mut Vec<TestDG>, index: u16) -> &mut i32 {
    match &mut dgs[index as usize] {
        TestDG::Number { num } => num,
        _ => panic!("not a number datagroup"),
    }
}

fn adder(_: &(), _: u64, indices: &[u16], dgs: &mut Vec<TestDG>) {
    *number_of(dgs, indices[0]) += 1;
}

fn multiplier(_: &(), _: u64, indices: &[u16], dgs: &mut Vec<TestDG>) {
    *number_of(dgs, indices[0]) *= 2;
}

fn nothing(_: &(), _: u64, _: &[u16], _: &mut Vec<TestDG>) {}

const TEST_SYSTEM: SystemClassID = 0;
const TEST_ADDER: SystemClassID = 1;
const TEST_MULTIPLIER: SystemClassID = 2;

fn ls_registry() -> LocalSystemRegistry<SystemFn, SetId> {
    let mut r = LocalSystemRegistry::new();
    r.register(system(
        "Test",
        vec![Dependency::DataGroup(ANIMATION), Dependency::OptionalDG(MESH)],
        &[(0, nothing), (1, nothing)],
    ));
    r.register(system("TestAdder", vec![Dependency::DataGroup(NUMBER)], &[(0, adder)]));
    r.register(system("TestMultiplier", vec![Dependency::DataGroup(NUMBER)], &[(0, multiplier)]));
    r
}

struct Test;
impl IDLocator for Test {
    fn get_id() -> u32 {
        TEST_SYSTEM
    }
    fn spec_get_id() -> u32 {
        TEST_SYSTEM
    }
}

struct GsTest;
impl IDLocator for GsTest {
    fn get_id() -> u32 {
        0
    }
    fn spec_get_id() -> u32 {
        0
    }
}

struct TestBefore;
impl IDLocator for TestBefore {
    fn get_id() -> u32 {
        1
    }
    fn spec_get_id() -> u32 {
        1
    }
}

fn ptr() -> EntityPtr {
    EntityPtr { index: 0, generation: 0 }
}

#[test]
fn test_entity_creation() {
    let dgs = dg_registry();
    let lss = ls_registry();
    let mut spawn_desc: EntitySpawnDescription<TestArg> = EntitySpawnDescription::new();
    spawn_desc.add_datagroup_by_id(
        ANIMATION,
        DataGroupInitType::Arg(TestArg::Animation { clip_name: "hello world".to_string(), duration: 4.20 }),
    );
    spawn_desc.add_datagroup_by_id(MESH, DataGroupInitType::NoInit);
    spawn_desc.add_local_system_by_id(TEST_SYSTEM);
    spawn_desc.add_global_system_by_id(0);
    assert!(spawn_desc.check_local_systems(&lss).is_ok());
    spawn_desc.set_name("Test Name".to_owned());

    let entity: Entity<TestDG> = Entity::init(1, ptr(), spawn_desc, &dgs, &lss, TRANSFORM);
    assert_eq!(entity.get_id(), 1);
    assert_eq!(entity.get_name(), "Test Name");

    assert!(matches!(
        entity.get_datagroup::<AnimationDataGroup>(),
        Some(dg) if dg.get_id() == <AnimationDataGroup as DataGroupMetadataLocator>::get_id()
    ));
    assert!(matches!(
        entity.get_datagroup::<MeshDataGroup>(),
        Some(dg) if dg.get_id() == <MeshDataGroup as DataGroupMetadataLocator>::get_id()
    ));

    assert!(entity.contains_local_system::<Test>());
    assert!(entity.contains_global_system::<GsTest>());
    assert!(!entity.contains_global_system::<TestBefore>());
}

#[test]
fn test_entity_stage_run() {
    let dgs = dg_registry();
    let lss = ls_registry();
    let world = ();
    let mut spawn_desc: EntitySpawnDescription<TestArg> = EntitySpawnDescription::new();
    spawn_desc.add_datagroup_by_id(NUMBER, DataGroupInitType::Arg(TestArg::Number { num: 1 }));
    spawn_desc.add_local_system_by_id(TEST_ADDER);
    spawn_desc.add_local_system_by_id(TEST_MULTIPLIER);
    assert!(spawn_desc.check_local_systems(&lss).is_ok());
    spawn_desc.set_name("Test Name".to_owned());

    let mut entity: Entity<TestDG> = Entity::init(1, ptr(), spawn_desc, &dgs, &lss, TRANSFORM);
    entity.run_stage(&lss, &world, 0);
    assert_eq!(
        entity.get_datagroup::<TestNumberDataGroup>(),
        Some(&TestDG::Number { num: 4 })
    );
}

#[test]
fn test_allocation() {
    let dgs = dg_registry();
    let lss = ls_registry();
    let mut alloc: EntityAllocator<Entity<TestDG>> = EntityAllocator::new();
    let entity_ptr = alloc.allocate();
    let mut spawn_desc: EntitySpawnDescription<TestArg> = EntitySpawnDescription::new();
    spawn_desc.set_name("hello".to_owned());

    assert!(alloc.is_live(&entity_ptr));

    assert!(!alloc.is_initialized(&entity_ptr));
    let entity = Entity::init(420, entity_ptr, spawn_desc, &dgs, &lss, TRANSFORM);
    alloc.init(&entity_ptr, entity);
    assert!(alloc.is_initialized(&entity_ptr));

    assert_eq!(alloc.get(&entity_ptr).get_name(), "hello".to_owned());
    assert_eq!(alloc.get(&entity_ptr).get_id(), 420);
}

#[test]
fn test_free() {
    let dgs = dg_registry();
    let lss = ls_registry();
    let mut alloc: EntityAllocator<Entity<TestDG>> = EntityAllocator::new();
    let entity_ptr = alloc.allocate();

    alloc.free(&entity_ptr);
    assert!(!alloc.is_live(&entity_ptr));

    let entity_ptr = alloc.allocate();
    let spawn_desc: EntitySpawnDescription<TestArg> = EntitySpawnDescription::new();
    let entity = Entity::init(420, entity_ptr, spawn_desc, &dgs, &lss, TRANSFORM);
    alloc.init(&entity_ptr, entity);

    assert!(alloc.is_initialized(&entity_ptr));
    alloc.free(&entity_ptr);
    assert!(!alloc.is_initialized(&entity_ptr));
    assert!(!alloc.is_live(&entity_ptr));
}

#[test]
fn datagroups_are_sorted_and_initialized() {
    let dgs = dg_registry();
    let lss = ls_registry();
    let mut spawn_desc: EntitySpawnDescription<TestArg> = EntitySpawnDescription::new();
    spawn_desc.add_datagroup_by_id(NUMBER, DataGroupInitType::Arg(TestArg::Number { num: 7 }));
    spawn_desc.add_datagroup_by_id(MESH, DataGroupInitType::NoInit);
    spawn_desc.add_datagroup_by_id(
        ANIMATION,
        DataGroupInitType::Arg(TestArg::Animation { clip_name: "walk".to_string(), duration: 1.5 }),
    );
    let entity: Entity<TestDG> = Entity::init(5, ptr(), spawn_desc, &dgs, &lss, TRANSFORM);
    assert_eq!(
        entity.get_datagroups(),
        &vec![
            TestDG::Animation { clip_name: "walk".to_string(), duration: 1.5 },
            TestDG::Mesh,
            TestDG::Number { num: 7 },
        ]
    );
    assert_eq!(entity.get_datagroup_by_id(TRANSFORM), None);
    assert!(!entity.is_spatial_entity());
    assert!(entity.get_transform().is_none());
}

#[test]
fn stage_plan_lays_out_dependency_indices() {
    let dgs = dg_registry();
    let lss = ls_registry();
    let mut spawn_desc: EntitySpawnDescription<TestArg> = EntitySpawnDescription::new();
    spawn_desc.add_datagroup_by_id(
        ANIMATION,
        DataGroupInitType::Arg(TestArg::Animation { clip_name: String::new(), duration: 0.0 }),
    );
    spawn_desc.add_datagroup_by_id(NUMBER, DataGroupInitType::Arg(TestArg::Number { num: 1 }));
    spawn_desc.add_local_system_by_id(TEST_MULTIPLIER);
    spawn_desc.add_local_system_by_id(TEST_SYSTEM);
    let entity: Entity<TestDG> = Entity::init(9, ptr(), spawn_desc, &dgs, &lss, TRANSFORM);

    // Test runs in stages 0 and 1 with (animation, optional mesh), the
    // multiplier in stage 0 with the number datagroup (at index 1).
    assert_eq!(
        entity.get_system_indices(),
        &[0u16, INVALID_DATAGROUP_INDEX, 0, INVALID_DATAGROUP_INDEX, 1][..]
    );
    assert!(entity.is_stage_enabled(0));
    assert!(entity.is_stage_enabled(1));
    assert!(!entity.is_stage_enabled(2));
    assert_eq!(
        entity.stage_runs(0),
        vec![
            StageRun { system: TEST_SYSTEM, start: 0, len: 2 },
            StageRun { system: TEST_MULTIPLIER, start: 2, len: 1 },
        ]
    );
    assert_eq!(entity.stage_runs(1), vec![StageRun { system: TEST_SYSTEM, start: 0, len: 2 }]);
    let hierarchy = SpatialHierarchy::new();
    assert!(entity.should_run_in_stage(0, &hierarchy, 0));
    assert!(!entity.should_run_in_stage(2, &hierarchy, 0));
}

#[test]
fn spatial_entity_keeps_its_transform_index() {
    let dgs = dg_registry();
    let lss = ls_registry();
    let mut spawn_desc: EntitySpawnDescription<TestArg> = EntitySpawnDescription::new();
    spawn_desc.add_datagroup_by_id(TRANSFORM, DataGroupInitType::NoInit);
    spawn_desc.add_datagroup_by_id(NUMBER, DataGroupInitType::Arg(TestArg::Number { num: 3 }));
    spawn_desc.add_local_system_by_id(TEST_ADDER);
    let mut entity: Entity<TestDG> = Entity::init(2, ptr(), spawn_desc, &dgs, &lss, TRANSFORM);
    assert!(entity.is_spatial_entity());
    assert_eq!(entity.get_transform(), Some(&TestDG::Transform));

    if let Some(TestDG::Number { num }) = entity.get_datagroup_by_id_mut(NUMBER) {
        *num = 10;
    }
    assert_eq!(entity.get_datagroup_by_id(NUMBER), Some(&TestDG::Number { num: 10 }));

    entity.delete_transform();
    assert!(!entity.is_spatial_entity());
    assert_eq!(entity.get_datagroups().len(), 2);
}

fn assert_number_4(_: &(), _: u64, indices: &[u16], dgs: &mut Vec<TestDG>) {
    assert_eq!(*number_of(dgs, indices[0]), 4);
}

const TEST_ASSERT_NUMBER_4: SystemClassID = 3;
const ALL_LIVE: u32 = 0;
const N_GLOBAL_SYSTEMS: usize = 2;

fn when_required() -> Vec<GlobalSystemLifetime> {
    vec![GlobalSystemLifetime::WhenRequired; N_GLOBAL_SYSTEMS]
}

/// Stage lists for `n` global systems: system `g` has a function for stage 0
/// and for stage `g + 1`.
fn gs_stages(n: usize) -> GlobalSystemStages {
    let mut functions = Vec::new();
    for g in 0..n {
        let mut row = vec![false; STAGE_COUNT];
        row[0] = true;
        row[g + 1] = true;
        functions.push(row);
    }
    GlobalSystemStages::new(functions)
}

fn world_systems() -> LocalSystemRegistry<SystemFn, SetId> {
    let mut r = ls_registry();
    r.register(system("TestAssertNumber4", vec![Dependency::DataGroup(NUMBER)], &[(0, assert_number_4)]));
    r
}

fn spatial_desc() -> EntitySpawnDescription<TestArg> {
    let mut desc = EntitySpawnDescription::new();
    desc.add_datagroup_by_id(TRANSFORM, DataGroupInitType::NoInit);
    desc
}

#[test]
fn test_parenting() {
    let dgs = dg_registry();
    let lss = world_systems();
    let mut world: World<TestDG> = World::new(1, when_required());

    let get_spawn_desc = || {
        let mut desc = spatial_desc();
        desc.add_global_system_by_id(ALL_LIVE);
        desc
    };

    let root_id = 1;
    let node_id = 2;
    let leaf_node_id = 3;
    let root_ptr = world.create_entity_internal(root_id, get_spawn_desc(), &dgs, &lss, TRANSFORM);
    let node_ptr = world.create_entity_internal(node_id, get_spawn_desc(), &dgs, &lss, TRANSFORM);
    let mut spawn_desc = get_spawn_desc();
    spawn_desc.add_local_system_by_id(TEST_SYSTEM);
    spawn_desc.add_datagroup_by_id(
        ANIMATION,
        DataGroupInitType::Arg(TestArg::Animation { clip_name: "anim".into(), duration: 3.0 }),
    );
    let leaf_node_ptr = world.create_entity_internal(leaf_node_id, spawn_desc, &dgs, &lss, TRANSFORM);

    world.set_entity_parent_internal(node_id, root_id);
    world.set_entity_parent_internal(leaf_node_id, node_id);

    let root = world.get_node(root_id).unwrap();
    let node = world.get_node(node_id).unwrap();
    let leaf_node = world.get_node(leaf_node_id).unwrap();
    let h = world.get_hierarchy();

    // Check that the nodes are parented as expected
    assert!(h.is_root(root));
    assert!(!h.is_root(node));

    // Check that the counters make sense
    assert_eq!(h.get_n_nodes(root), 3);
    assert_eq!(h.get_stage_count(root, 0), 1);
    assert_eq!(h.get_stage_count(root, 1), 1);
    for i in 2..STAGE_COUNT {
        assert_eq!(h.get_stage_count(root, i as u8), 0);
    }
    assert_eq!(h.get_n_nodes(node), 2);
    assert_eq!(h.get_n_nodes(leaf_node), 1);

    // Check that parent is properly set
    assert_eq!(h.get_parent(node), Some(root));

    // Check that deleting an intermediate node deletes the entire subtree
    assert!(world.destroy_entity_internal(node_id));
    assert!(!world.is_live(&node_ptr));
    assert!(!world.is_live(&leaf_node_ptr));
    assert!(world.is_live(&root_ptr));

    // Check that the root node is properly set
    let h = world.get_hierarchy();
    assert_eq!(h.get_n_nodes(root), 1);
    assert!(h.get_children(root).is_empty());
    assert_eq!(world.global_system_count(ALL_LIVE), 1);
}

#[test]
fn test_hierarchy_update() {
    let dgs = dg_registry();
    let lss = world_systems();
    let ctx = ();
    let mut world: World<TestDG> = World::new(2, when_required());

    let mut root_desc = spatial_desc();
    root_desc.set_name("Root entity".into());
    let root_id = 1;
    world.create_entity_internal(root_id, root_desc, &dgs, &lss, TRANSFORM);

    let mut desc = spatial_desc();
    desc.set_name("node entity".into());
    desc.add_datagroup_by_id(NUMBER, DataGroupInitType::Arg(TestArg::Number { num: 1 }));
    desc.add_local_system_by_id(TEST_ADDER);
    desc.add_local_system_by_id(TEST_MULTIPLIER);
    desc.add_local_system_by_id(TEST_ASSERT_NUMBER_4);
    let node_id = 2;
    let node_ptr = world.create_entity_internal(node_id, desc, &dgs, &lss, TRANSFORM);
    world.set_entity_parent_internal(node_id, root_id);
    world.run_stage(0, &lss, &ctx);

    let root = world.get_node(root_id).unwrap();
    assert_eq!(
        world.get_hierarchy().get_stage_count(root, 0),
        1,
        "Root node is not properly counting local systems for its children"
    );

    assert!(world.is_live(&node_ptr));
    let number_dg = world
        .get_entity(node_id)
        .unwrap()
        .get_datagroup::<TestNumberDataGroup>()
        .expect("Number datagroup should be added to this node");
    assert_eq!(number_dg, &TestDG::Number { num: 4 });
}

#[test]
fn destroying_a_missing_entity_changes_nothing() {
    let mut world: World<TestDG> = World::new(3, when_required());
    assert!(!world.destroy_entity_internal(42));
    assert_eq!(world.get_entity_ptr(42), None);
    assert!(world.get_entities_all().is_empty());
}

#[test]
fn global_systems_are_counted_and_queued() {
    let dgs = dg_registry();
    let lss = world_systems();
    let mut world: World<TestDG> = World::new(4, when_required());
    let mut stages = gs_stages(N_GLOBAL_SYSTEMS);
    let mut desc: EntitySpawnDescription<TestArg> = EntitySpawnDescription::new();
    desc.add_global_system_by_id(1);
    desc.add_global_system_by_id(0);
    world.create_entity_internal(7, desc, &dgs, &lss, TRANSFORM);
    assert_eq!(world.global_system_count(0), 1);
    assert_eq!(world.global_system_count(1), 1);
    assert!(!world.global_system_is_loaded(0));

    let (unloaded, loaded) = world.process_global_systems_commands(&mut stages);
    assert!(unloaded.is_empty());
    assert_eq!(loaded, vec![0, 1]);
    assert!(world.global_system_is_loaded(0));
    assert!(world.global_system_is_loaded(1));

    // Destroying the last entity that requires them queues them for unloading.
    assert!(world.destroy_entity_internal(7));
    assert_eq!(world.global_system_count(0), 0);
    let (unloaded, loaded) = world.process_global_systems_commands(&mut stages);
    assert_eq!(unloaded, vec![0, 1]);
    assert!(loaded.is_empty());
    assert!(!world.global_system_is_loaded(1));
}

#[test]
fn created_entities_are_scheduled_in_their_stages() {
    let dgs = dg_registry();
    let lss = world_systems();
    let ctx = ();
    let mut world: World<TestDG> = World::new(5, when_required());
    let mut desc: EntitySpawnDescription<TestArg> = EntitySpawnDescription::new();
    desc.add_datagroup_by_id(NUMBER, DataGroupInitType::Arg(TestArg::Number { num: 1 }));
    desc.add_local_system_by_id(TEST_ADDER);
    desc.add_local_system_by_id(TEST_MULTIPLIER);
    let p = world.create_entity_internal(11, desc, &dgs, &lss, TRANSFORM);
    assert_eq!(world.get_stage_entities(0), &vec![p]);
    assert!(world.get_stage_entities(1).is_empty());
    assert_eq!(world.get_entities_all(), &vec![p]);
    world.run_stage(0, &lss, &ctx);
    assert_eq!(
        world.get_entity(11).unwrap().get_datagroup_by_id(NUMBER),
        Some(&TestDG::Number { num: 4 })
    );
    assert!(world.destroy_entity_internal(11));
    assert!(world.get_stage_entities(0).is_empty());
    assert!(world.get_entities_all().is_empty());
}

#[test]
fn hierarchy_counts_follow_reparenting() {
    let dgs = dg_registry();
    let lss = world_systems();
    let mut desc_a = spatial_desc();
    desc_a.add_datagroup_by_id(NUMBER, DataGroupInitType::Arg(TestArg::Number { num: 0 }));
    desc_a.add_local_system_by_id(TEST_ADDER);
    let a: Entity<TestDG> = Entity::init(1, ptr(), desc_a, &dgs, &lss, TRANSFORM);
    let b: Entity<TestDG> = Entity::init(2, ptr(), spatial_desc(), &dgs, &lss, TRANSFORM);

    let mut h = SpatialHierarchy::new();
    let na = h.add_node(a.get_ls_stage_enabled_map());
    let nb = h.add_node(b.get_ls_stage_enabled_map());
    let nc = h.add_node(b.get_ls_stage_enabled_map());
    assert_eq!(h.get_stage_count(na, 0), 1);
    assert_eq!(h.get_stage_count(nb, 0), 0);

    h.set_parent(na, nb);
    h.set_parent(nb, nc);
    assert_eq!(h.get_n_nodes(nc), 3);
    assert_eq!(h.get_stage_count(nc, 0), 1);
    assert!(h.should_run_in_stage(nc, 0));
    assert!(!h.should_run_in_stage(na, 0));
    assert_eq!(h.get_root(na), nc);
    assert!(h.is_in_subtree(na, nc));
    assert!(!h.is_in_subtree(nc, na));
    assert_eq!(h.collect_subtree(nb), vec![na, nb]);

    // Moving `a` directly under `c` keeps `c`'s counts and empties `b`.
    h.set_parent(na, nc);
    assert_eq!(h.get_n_nodes(nb), 1);
    assert_eq!(h.get_stage_count(nb, 0), 0);
    assert_eq!(h.get_n_nodes(nc), 3);

    // Clearing the parent undoes it.
    h.clear_parent(na);
    assert_eq!(h.get_n_nodes(nc), 2);
    assert_eq!(h.get_stage_count(nc, 0), 0);
    assert!(h.is_root(na));
    assert_eq!(h.get_children(nc), &vec![nb]);
}

#[test]
fn description_lists_systems_arguments_and_stages() {
    let dgs = dg_registry();
    let lss = ls_registry();
    let mut spawn_desc: EntitySpawnDescription<TestArg> = EntitySpawnDescription::new();
    spawn_desc.add_datagroup_by_id(
        ANIMATION,
        DataGroupInitType::Arg(TestArg::Animation { clip_name: "run".to_string(), duration: 2.0 }),
    );
    spawn_desc.add_datagroup_by_id(NUMBER, DataGroupInitType::Arg(TestArg::Number { num: 3 }));
    spawn_desc.add_local_system_by_id(TEST_MULTIPLIER);
    spawn_desc.add_local_system_by_id(TEST_SYSTEM);
    spawn_desc.set_name("Described".to_owned());
    let entity: Entity<TestDG> = Entity::init(9, ptr(), spawn_desc, &dgs, &lss, TRANSFORM);

    let d = entity.describe(&dgs, &lss);
    assert_eq!(d.id, 9);
    assert_eq!(d.name, "Described");
    let ids: Vec<SystemClassID> = d.local_systems.iter().map(|s| s.id).collect();
    assert_eq!(ids, vec![TEST_SYSTEM, TEST_MULTIPLIER]);
    assert_eq!(d.local_systems[0].name, "Test");
    assert_eq!(d.local_systems[0].args.len(), 2);
    assert!(matches!(d.local_systems[0].args[0], ArgDescription::Present("AnimationDataGroup")));
    assert!(matches!(d.local_systems[0].args[1], ArgDescription::Absent));
    assert_eq!(d.local_systems[1].name, "TestMultiplier");
    assert!(matches!(d.local_systems[1].args[0], ArgDescription::Present("TestNumberDataGroup")));

    assert_eq!(d.ls_stage_enabled_map, vec![0, 1]);
    assert_eq!(d.stages.len(), 2);
    assert_eq!(d.stages[0].stage, 0);
    let stage0: Vec<SystemClassID> = d.stages[0].local_systems.iter().map(|r| r.id).collect();
    assert_eq!(stage0, vec![TEST_SYSTEM, TEST_MULTIPLIER]);
    assert_eq!(d.stages[1].stage, 1);
    let stage1: Vec<&str> = d.stages[1].local_systems.iter().map(|r| r.name).collect();
    assert_eq!(stage1, vec!["Test"]);
}

#[test]
fn description_marks_missing_required_datagroups() {
    let dgs = dg_registry();
    let lss = ls_registry();
    let mut spawn_desc: EntitySpawnDescription<TestArg> = EntitySpawnDescription::new();
    spawn_desc.add_local_system_by_id(TEST_ADDER);
    let entity: Entity<TestDG> = Entity::init(2, ptr(), spawn_desc, &dgs, &lss, TRANSFORM);
    let d = entity.describe(&dgs, &lss);
    assert!(matches!(d.local_systems[0].args[0], ArgDescription::Missing("TestNumberDataGroup")));
    assert_eq!(d.ls_stage_enabled_map, vec![0]);
}

#[test]
fn global_system_dependencies_are_checked() {
    let deps = vec![
        vec![Dependency::DataGroup(MESH), Dependency::OptionalDG(NUMBER)],
        vec![Dependency::DataGroup(NUMBER)],
    ];
    let mut d: EntitySpawnDescription<TestArg> = EntitySpawnDescription::new();
    d.add_datagroup_by_id(MESH, DataGroupInitType::NoInit);
    d.add_global_system_by_id(0);
    assert!(d.check_global_systems(&deps).is_ok());
    assert!(d.check(&dg_registry(), &ls_registry(), &deps).is_ok());

    d.add_global_system_by_id(1);
    assert!(matches!(
        d.check_global_systems(&deps),
        Err(SpawnDescriptionError::MissingGlobalSystemDependency { global_system: 1, datagroup: NUMBER })
    ));
    assert!(d.check(&dg_registry(), &ls_registry(), &deps).is_err());

    let mut unknown: EntitySpawnDescription<TestArg> = EntitySpawnDescription::new();
    unknown.add_global_system_by_id(5);
    assert!(matches!(
        unknown.check_global_systems(&deps),
        Err(SpawnDescriptionError::UnknownGlobalSystem(5))
    ));
}

#[test]
fn global_system_required_again_before_processing_stays_loaded() {
    let dgs = dg_registry();
    let lss = world_systems();
    let mut world: World<TestDG> = World::new(6, when_required());
    let mut stages = gs_stages(N_GLOBAL_SYSTEMS);
    let mut first: EntitySpawnDescription<TestArg> = EntitySpawnDescription::new();
    first.add_global_system_by_id(0);
    world.create_entity_internal(1, first, &dgs, &lss, TRANSFORM);
    let (_, loaded) = world.process_global_systems_commands(&mut stages);
    assert_eq!(loaded, vec![0]);

    // The last user goes and a new one comes before the commands run.
    assert!(world.destroy_entity_internal(1));
    let mut second: EntitySpawnDescription<TestArg> = EntitySpawnDescription::new();
    second.add_global_system_by_id(0);
    world.create_entity_internal(2, second, &dgs, &lss, TRANSFORM);
    let (unloaded, loaded) = world.process_global_systems_commands(&mut stages);
    assert!(unloaded.is_empty());
    assert!(loaded.is_empty());
    assert!(world.global_system_is_loaded(0));

    // A user that comes and goes before the commands run loads nothing.
    let mut third: EntitySpawnDescription<TestArg> = EntitySpawnDescription::new();
    third.add_global_system_by_id(1);
    world.create_entity_internal(3, third, &dgs, &lss, TRANSFORM);
    assert!(world.destroy_entity_internal(3));
    let (unloaded, loaded) = world.process_global_systems_commands(&mut stages);
    assert!(unloaded.is_empty());
    assert!(loaded.is_empty());
    assert!(!world.global_system_is_loaded(1));
}

#[test]
fn testing_global_system_lifetimes() {
    const ALWAYS_LIVE: u32 = 0;
    const WHEN_REQUIRED: u32 = 1;
    const MANUAL: u32 = 2;
    let dgs = dg_registry();
    let lss = world_systems();
    let mut world: World<TestDG> = World::new(
        8,
        vec![GlobalSystemLifetime::AlwaysLive, GlobalSystemLifetime::WhenRequired, GlobalSystemLifetime::Manual],
    );
    let mut stages = gs_stages(3);
    world.process_global_systems_commands(&mut stages);
    assert!(world.global_system_is_loaded(ALWAYS_LIVE), "An AlwaysLive global system should be loaded by now");
    assert!(!world.global_system_is_loaded(WHEN_REQUIRED), "WhenRequired global system should not be loaded by if not required");
    assert!(!world.global_system_is_loaded(MANUAL), "A Manual Lifetime global system should not be loaded by if not requested");

    world.queue_global_system_load(MANUAL);
    world.process_global_systems_commands(&mut stages);
    assert!(world.global_system_is_loaded(MANUAL), "ManualLifetimeGS should be loaded by now");

    let mut desc: EntitySpawnDescription<TestArg> = EntitySpawnDescription::new();
    desc.add_global_system_by_id(WHEN_REQUIRED);
    world.create_entity_internal(1, desc, &dgs, &lss, TRANSFORM);
    world.process_global_systems_commands(&mut stages);
    assert!(world.global_system_is_loaded(WHEN_REQUIRED), "WhenRequired Global system should be loaded when an entity requires it");
    assert_eq!(stages.get_stage(0), &vec![ALWAYS_LIVE, WHEN_REQUIRED, MANUAL]);
    assert_eq!(stages.get_stage(2), &vec![WHEN_REQUIRED]);

    // An always live system stays loaded; a manual one goes on request only.
    assert!(world.destroy_entity_internal(1));
    world.queue_global_system_unload(MANUAL);
    world.process_global_systems_commands(&mut stages);
    assert!(world.global_system_is_loaded(ALWAYS_LIVE));
    assert!(!world.global_system_is_loaded(WHEN_REQUIRED));
    assert!(!world.global_system_is_loaded(MANUAL));
    // Unloaded systems are in no stage list.
    assert_eq!(stages.get_stage(0), &vec![ALWAYS_LIVE]);
    assert!(stages.get_stage(2).is_empty());
    assert!(stages.get_stage(3).is_empty());
    assert_eq!(stages.get_stage(1), &vec![ALWAYS_LIVE]);
}

#[test]
fn global_systems_load_and_unload_at_once() {
    let mut world: World<TestDG> = World::new(10, when_required());
    let mut stages = gs_stages(N_GLOBAL_SYSTEMS);
    world.load_global_system(&mut stages, 1);
    world.load_global_system(&mut stages, 0);
    assert!(world.global_system_is_loaded(0));
    assert!(stages.global_system_is_loaded(1));
    // Loading appends; the lists are sorted by the next processing.
    assert_eq!(stages.get_stage(0), &vec![1, 0]);
    assert_eq!(stages.get_stage(2), &vec![1]);

    world.unload_global_system(&mut stages, 1);
    assert!(!world.global_system_is_loaded(1));
    assert!(!stages.global_system_is_loaded(1));
    assert_eq!(stages.get_stage(0), &vec![0]);
    assert!(stages.get_stage(2).is_empty());
    assert_eq!(stages.get_stage(1), &vec![0]);
}

#[test]
fn destroying_a_node_detaches_it_and_drops_its_subtree_from_the_stages() {
    let dgs = dg_registry();
    let lss = world_systems();
    let mut world: World<TestDG> = World::new(9, when_required());
    let mut desc = spatial_desc();
    desc.add_datagroup_by_id(NUMBER, DataGroupInitType::Arg(TestArg::Number { num: 1 }));
    desc.add_local_system_by_id(TEST_ASSERT_NUMBER_4);
    let root_ptr = world.create_entity_internal(1, spatial_desc(), &dgs, &lss, TRANSFORM);
    let mut desc2 = spatial_desc();
    desc2.add_datagroup_by_id(NUMBER, DataGroupInitType::Arg(TestArg::Number { num: 1 }));
    desc2.add_local_system_by_id(TEST_ASSERT_NUMBER_4);
    let other_ptr = world.create_entity_internal(4, desc2, &dgs, &lss, TRANSFORM);
    let node_ptr = world.create_entity_internal(2, desc, &dgs, &lss, TRANSFORM);
    world.create_entity_internal(3, spatial_desc(), &dgs, &lss, TRANSFORM);
    world.set_entity_parent_internal(2, 1);
    world.set_entity_parent_internal(3, 2);
    let root = world.get_node(1).unwrap();
    let other = world.get_node(4).unwrap();
    assert!(world.destroy_entity_internal(2));
    let h = world.get_hierarchy();
    assert_eq!(h.get_parent(other), None);
    assert_eq!(h.get_n_nodes(root), 1);
    assert!(h.get_children(root).is_empty());
    assert!(!world.get_stage_entities(0).contains(&node_ptr));
    assert!(world.get_stage_entities(0).contains(&other_ptr));
    assert!(world.get_entities_all().contains(&root_ptr));
    assert!(!world.get_entities_all().contains(&node_ptr));
}

#[test]
fn node_counts_are_one_more_than_the_sum_over_children() {
    let dgs = dg_registry();
    let lss = world_systems();
    let mut desc_a = spatial_desc();
    desc_a.add_datagroup_by_id(NUMBER, DataGroupInitType::Arg(TestArg::Number { num: 0 }));
    desc_a.add_local_system_by_id(TEST_ADDER);
    let a: Entity<TestDG> = Entity::init(1, ptr(), desc_a, &dgs, &lss, TRANSFORM);
    let b: Entity<TestDG> = Entity::init(2, ptr(), spatial_desc(), &dgs, &lss, TRANSFORM);

    let mut h = SpatialHierarchy::new();
    let root = h.add_node(b.get_ls_stage_enabled_map());
    let left = h.add_node(a.get_ls_stage_enabled_map());
    let right = h.add_node(b.get_ls_stage_enabled_map());
    let leaf = h.add_node(a.get_ls_stage_enabled_map());
    h.set_parent(left, root);
    h.set_parent(right, root);
    h.set_parent(leaf, right);

    // `a` runs a system in stage 0, `b` none.
    for (x, own) in [(root, 0), (left, 1), (right, 0), (leaf, 1)] {
        let children = h.get_children(x).clone();
        let n: usize = children.iter().map(|c| h.get_n_nodes(*c)).sum();
        assert_eq!(h.get_n_nodes(x), 1 + n);
        let s: usize = children.iter().map(|c| h.get_stage_count(*c, 0)).sum();
        assert_eq!(h.get_stage_count(x, 0), own + s);
    }
    assert_eq!(h.get_n_nodes(root), 4);
    assert_eq!(h.get_stage_count(root, 0), 2);
    assert_eq!(h.get_stage_count(right, 0), 1);
}
