use proto_ecs::global_system_stages::GlobalSystemStages;
use proto_ecs::local_systems::STAGE_COUNT;

fn functions(stages: &[usize]) -> Vec<bool> {
    let mut v = vec![false; STAGE_COUNT];
    for s in stages {
        v[*s] = true;
    }
    v
}

fn table() -> GlobalSystemStages {
    GlobalSystemStages::new(vec![functions(&[0, 2]), functions(&[0]), functions(&[2]), functions(&[0, 1])])
}

#[test]
fn loading_puts_systems_in_their_stages_in_order() {
    let mut t = table();
    t.process(&vec![], &vec![3, 0, 2]);
    assert!(t.global_system_is_loaded(0));
    assert!(!t.global_system_is_loaded(1));
    assert_eq!(t.get_stage(0), &vec![0, 3]);
    assert_eq!(t.get_stage(1), &vec![3]);
    assert_eq!(t.get_stage(2), &vec![0, 2]);
    assert!(t.get_stage(3).is_empty());
}

#[test]
fn unloading_removes_systems_from_their_stages() {
    let mut t = table();
    t.process(&vec![], &vec![0, 1, 2, 3]);
    assert_eq!(t.get_stage(0), &vec![0, 1, 3]);
    t.process(&vec![0], &vec![]);
    assert_eq!(t.get_stage(0), &vec![1, 3]);
    assert_eq!(t.get_stage(2), &vec![2]);
    assert!(!t.global_system_is_loaded(0));
}

#[test]
fn unload_swaps_in_the_last_system() {
    let mut t = table();
    t.load_global_system(1);
    t.load_global_system(3);
    t.load_global_system(0);
    assert_eq!(t.get_stage(0), &vec![1, 3, 0]);
    t.unload_global_system(1);
    assert_eq!(t.get_stage(0), &vec![0, 3]);
    t.sort_stages();
    assert_eq!(t.get_stage(0), &vec![0, 3]);
}
