use cordis::deps::DependencyIndex;
use cordis::fiber::{DependencyEdge, Fiber, FiberTable, DEFAULT_REALM};

fn edge(service: &str, realm: u64) -> DependencyEdge {
    DependencyEdge::new(service.to_string(), realm)
}

fn fiber(id: u64, edges: &[(&str, u64)]) -> Fiber {
    Fiber::new(id, edges.iter().map(|(s, r)| edge(s, *r)).collect())
}

fn resident(fibers: Vec<Fiber>) -> FiberTable {
    let mut table = FiberTable::new();
    for f in fibers {
        table.insert(f);
    }
    table
}

#[test]
fn reverse_projection_matches_fiber_owned_edges_and_unregisters() {
    let mut index = DependencyIndex::new();
    let a = fiber(1, &[("svc", DEFAULT_REALM)]);
    let b = fiber(2, &[("other", DEFAULT_REALM)]);
    index.register(&a);
    index.register(&b);
    let table = resident(vec![fiber(1, &[("svc", DEFAULT_REALM)]), fiber(2, &[("other", DEFAULT_REALM)])]);
    let requested = vec![edge("svc", DEFAULT_REALM)];
    assert_eq!(index.dependents_of(&requested, &table).unwrap().len(), 1);
    index.unregister(&a);
    assert!(index.dependents_of(&requested, &table).unwrap().is_empty());
    assert_eq!(a.edges[0].service, "svc", "unregister never erases Fiber authority");
}

#[test]
fn clearing_and_rebuilding_projection_changes_no_authoritative_edges() {
    let mut index = DependencyIndex::new();
    let a = fiber(1, &[("svc", DEFAULT_REALM)]);
    index.register(&a);
    let table = resident(vec![a]);
    let requested = vec![edge("svc", DEFAULT_REALM)];
    assert_eq!(index.dependents_of(&requested, &table).unwrap().len(), 1);
    index.disable_for_test();
    assert!(index.dependents_of(&requested, &table).is_none());
    assert_eq!(table.get(1).unwrap().edges[0].service, "svc");
    index.rebuild_for_test(&table);
    assert_eq!(index.dependents_of(&requested, &table).unwrap().len(), 1);
}

#[test]
fn dependent_set_deduplicates_without_defining_semantic_order() {
    let mut index = DependencyIndex::new();
    let overlap = fiber(7, &[("alpha", DEFAULT_REALM), ("beta", DEFAULT_REALM)]);
    index.register(&overlap);
    let table = resident(vec![overlap]);
    let requested = vec![edge("beta", DEFAULT_REALM), edge("alpha", DEFAULT_REALM), edge("beta", DEFAULT_REALM)];
    let found = index.dependents_of(&requested, &table).unwrap();
    assert_eq!(found.len(), 1);
    assert_eq!(found[0], 7);
}

#[test]
fn late_registration_cannot_resurrect_a_dead_fiber() {
    let mut index = DependencyIndex::new();
    let mut dead = fiber(3, &[("svc", DEFAULT_REALM)]);
    dead.alive = false;
    dead.gate_open = false;
    index.register(&dead);
    let table = resident(vec![dead]);
    assert!(index.dependents_of(&vec![edge("svc", DEFAULT_REALM)], &table).unwrap().is_empty());
}

#[test]
fn dead_reverse_entries_are_pruned_lazily() {
    let mut index = DependencyIndex::new();
    let gone = fiber(4, &[("svc", DEFAULT_REALM)]);
    index.register(&gone);
    let mut table = resident(vec![gone]);
    assert!(!index.is_empty());
    table.release(4);
    assert!(index.dependents_of(&vec![edge("svc", DEFAULT_REALM)], &table).unwrap().is_empty());
    assert!(index.is_empty());
}

#[test]
fn dependents_keep_request_order_and_skip_unrequested_rows() {
    let mut index = DependencyIndex::new();
    let a = fiber(1, &[("a", DEFAULT_REALM)]);
    let b = fiber(2, &[("b", DEFAULT_REALM)]);
    let c = fiber(3, &[("c", DEFAULT_REALM), ("a", DEFAULT_REALM)]);
    index.register(&a);
    index.register(&b);
    index.register(&c);
    let table = resident(vec![a, b, c]);
    let found = index.dependents_of(&vec![edge("b", DEFAULT_REALM), edge("a", DEFAULT_REALM)], &table).unwrap();
    assert_eq!(found, vec![2, 1, 3]);
}

#[test]
fn realms_separate_rows() {
    let mut index = DependencyIndex::new();
    let a = fiber(1, &[("svc", 5)]);
    index.register(&a);
    let table = resident(vec![a]);
    assert!(index.dependents_of(&vec![edge("svc", DEFAULT_REALM)], &table).unwrap().is_empty());
    assert_eq!(index.dependents_of(&vec![edge("svc", 5)], &table).unwrap(), vec![1]);
}

#[test]
fn incomplete_projection_registers_nothing() {
    let mut index = DependencyIndex::new();
    index.disable_for_test();
    let a = fiber(1, &[("svc", DEFAULT_REALM)]);
    index.register(&a);
    assert!(index.is_empty());
    assert!(!index.is_complete());
}
