use proto_ecs::local_systems::{LocalSystemRegistry, LocalSystemRegistryEntry, SystemClassID, STAGE_COUNT};

type SystemFn = fn(&(), u64, &[u16], &mut Vec<u32>);
type SetId = fn(SystemClassID);

fn no_id(_: SystemClassID) {}

fn entry(name: &'static str, name_crc: u32, before: Vec<u32>, after: Vec<u32>) -> LocalSystemRegistryEntry<SystemFn, SetId> {
    LocalSystemRegistryEntry {
        id: 0,
        name,
        name_crc,
        dependencies: vec![],
        functions: [None; STAGE_COUNT],
        before,
        after,
        set_id_fn: no_id,
    }
}

#[test]
fn init_orders_by_dependencies_then_applies_changes() {
    let mut registry: LocalSystemRegistry<SystemFn, SetId> = LocalSystemRegistry::new();
    assert!(!registry.is_initialized());
    let entries = vec![
        entry("C", 30, vec![], vec![]),
        entry("B", 20, vec![], vec![10]),
        entry("A", 10, vec![30], vec![]),
    ];
    assert!(registry.init(entries, vec![(1, vec![], vec![30])]).is_ok());
    assert!(registry.is_initialized());
    assert_eq!(registry.len(), 3);
    let names: Vec<&str> = (0..3).map(|i| registry.get_entry_by_id(i).name).collect();
    assert_eq!(names, vec!["A", "B", "C"]);
    for i in 0..3 {
        assert_eq!(registry.get_entry_by_id(i).id, i);
    }
    // The change is applied after the ids are given.
    assert_eq!(registry.get_entry_by_id(1).after, vec![30]);
    assert!(registry.get_entry_by_id(1).before.is_empty());
}

#[test]
fn init_with_cyclic_dependencies_fails() {
    let mut registry: LocalSystemRegistry<SystemFn, SetId> = LocalSystemRegistry::new();
    let entries = vec![entry("A", 10, vec![20], vec![]), entry("B", 20, vec![10], vec![])];
    assert!(registry.init(entries, vec![]).is_err());
    assert!(!registry.is_initialized());
    assert_eq!(registry.len(), 2);
}
