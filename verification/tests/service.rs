use cordis::fiber::{DependencyEdge, FiberState, DEFAULT_REALM};
use cordis::runtime::{Context, RealmMappingError, Root, RuntimeObservation};
use cordis::service::{EffectRegistrationError, ServicePublishError};
use cordis::fiber::{Fiber, FiberTable};
use cordis::store::{ServiceControlError, ServiceInstallRefusal, ServiceLookupError, ServiceSlot, ServiceStore};

const CONTRACT: u64 = 11;

fn name(s: &str) -> String {
    s.to_string()
}

fn active_fiber(root: &mut Root<u32>, edges: Vec<DependencyEdge>) -> u64 {
    let id = root.spawn(edges);
    assert!(root.fibers.set_state(id, FiberState::Active));
    id
}

#[test]
fn active_publication_is_read_back_and_announced() {
    let mut root: Root<u32> = Root::new(1);
    let dependent = active_fiber(&mut root, vec![DependencyEdge::new(name("db"), DEFAULT_REALM)]);
    let provider = active_fiber(&mut root, Vec::new());
    let ctx = Context::new(provider);
    let publication = ctx.provide(&mut root, &name("db"), CONTRACT, 42).unwrap();
    assert_eq!(ctx.try_service(&root, &name("db"), CONTRACT), Ok(&42));
    assert_eq!(Context::new(dependent).try_service(&root, &name("db"), CONTRACT), Ok(&42));
    assert!(root.fibers.get(dependent).unwrap().recheck);
    assert!(!root.fibers.get(provider).unwrap().recheck);
    assert_eq!(root.observations.len(), 1);
    match &root.observations[0] {
        RuntimeObservation::ServiceVisibility { service, realm, previous, current } => {
            assert_eq!(service, "db");
            assert_eq!(realm.key(), DEFAULT_REALM);
            assert_eq!(*previous, None);
            assert_eq!(*current, Some(publication.occurrence()));
        }
    }
}

#[test]
fn loading_publication_is_occupied_but_invisible() {
    let mut root: Root<u32> = Root::new(1);
    let provider = root.spawn(Vec::new());
    let ctx = Context::new(provider);
    ctx.provide(&mut root, &name("db"), CONTRACT, 1).unwrap();
    assert_eq!(
        ctx.try_service(&root, &name("db"), CONTRACT),
        Err(ServiceLookupError::Unavailable { service: name("db") })
    );
    assert!(root.observations.is_empty());
    let other = root.spawn(Vec::new());
    assert_eq!(
        Context::new(other).provide(&mut root, &name("db"), CONTRACT, 2).unwrap_err(),
        ServicePublishError::DuplicatePublication { service: name("db") }
    );
    root.fibers.set_state(provider, FiberState::Active);
    assert_eq!(ctx.try_service(&root, &name("db"), CONTRACT), Ok(&1));
}

#[test]
fn duplicate_and_contract_mismatch_are_refused() {
    let mut root: Root<u32> = Root::new(1);
    let a = active_fiber(&mut root, Vec::new());
    let b = active_fiber(&mut root, Vec::new());
    Context::new(a).provide(&mut root, &name("db"), CONTRACT, 1).unwrap();
    assert_eq!(
        Context::new(b).provide(&mut root, &name("db"), CONTRACT, 2).unwrap_err(),
        ServicePublishError::DuplicatePublication { service: name("db") }
    );
    assert_eq!(
        Context::new(b).provide(&mut root, &name("db"), CONTRACT + 1, 2).unwrap_err(),
        ServicePublishError::ContractMismatch { service: name("db") }
    );
    assert_eq!(
        Context::new(b).try_service(&root, &name("db"), CONTRACT + 1),
        Err(ServiceLookupError::ContractMismatch { service: name("db") })
    );
    assert_eq!(Context::new(b).try_service(&root, &name("db"), CONTRACT), Ok(&1));
}

#[test]
fn closed_generation_publishes_nothing() {
    let mut root: Root<u32> = Root::new(1);
    let a = active_fiber(&mut root, Vec::new());
    root.fibers.set_flags(a, true, false, false);
    assert_eq!(
        Context::new(a).provide(&mut root, &name("db"), CONTRACT, 1).unwrap_err(),
        ServicePublishError::InactiveContext
    );
    assert_eq!(
        Context::new(a).try_service(&root, &name("db"), CONTRACT),
        Err(ServiceLookupError::Unavailable { service: name("db") })
    );
    assert_eq!(
        Context::new(99).provide(&mut root, &name("db"), CONTRACT, 1).unwrap_err(),
        ServicePublishError::InactiveContext
    );
    assert_eq!(Context::new(a).effect(&mut root, 5), Err(EffectRegistrationError::InactiveContext));
}

#[test]
fn set_keeps_identity_and_stale_capabilities_are_refused() {
    let mut root: Root<u32> = Root::new(1);
    let a = active_fiber(&mut root, Vec::new());
    let b = active_fiber(&mut root, Vec::new());
    let first = Context::new(a).provide(&mut root, &name("db"), CONTRACT, 1).unwrap();
    first.set(&mut root, 10).unwrap();
    assert_eq!(Context::new(b).try_service(&root, &name("db"), CONTRACT), Ok(&10));
    assert_eq!(root.observations.len(), 1);
    root.fibers.set_flags(a, false, false, false);
    let second = Context::new(b).provide(&mut root, &name("db"), CONTRACT, 2).unwrap();
    assert_ne!(first.occurrence(), second.occurrence());
    assert_eq!(first.set(&mut root, 3), Err(ServiceControlError::StalePublication { service: name("db") }));
    assert_eq!(first.remove(&mut root), Err(ServiceControlError::StalePublication { service: name("db") }));
    assert_eq!(Context::new(b).try_service(&root, &name("db"), CONTRACT), Ok(&2));
}

#[test]
fn closed_mutation_is_reported_after_staleness() {
    let mut root: Root<u32> = Root::new(1);
    let a = active_fiber(&mut root, Vec::new());
    let publication = Context::new(a).provide(&mut root, &name("db"), CONTRACT, 1).unwrap();
    root.fibers.set_state(a, FiberState::Unloading);
    assert_eq!(publication.set(&mut root, 2), Err(ServiceControlError::MutationClosed { service: name("db") }));
    assert_eq!(publication.remove(&mut root), Err(ServiceControlError::MutationClosed { service: name("db") }));
}

#[test]
fn visible_removal_withdraws_and_announces_once() {
    let mut root: Root<u32> = Root::new(1);
    let dependent = active_fiber(&mut root, vec![DependencyEdge::new(name("db"), DEFAULT_REALM)]);
    let a = active_fiber(&mut root, Vec::new());
    let publication = Context::new(a).provide(&mut root, &name("db"), CONTRACT, 1).unwrap();
    let occurrence = publication.occurrence();
    publication.remove(&mut root).unwrap();
    assert_eq!(
        Context::new(dependent).try_service(&root, &name("db"), CONTRACT),
        Err(ServiceLookupError::Unavailable { service: name("db") })
    );
    assert_eq!(root.observations.len(), 2);
    match &root.observations[1] {
        RuntimeObservation::ServiceVisibility { previous, current, .. } => {
            assert_eq!(*previous, Some(occurrence));
            assert_eq!(*current, None);
        }
    }
    assert!(root.services.slots_owned_by(a).is_empty());
}

#[test]
fn loading_removal_announces_nothing() {
    let mut root: Root<u32> = Root::new(1);
    let a = root.spawn(Vec::new());
    let publication = Context::new(a).provide(&mut root, &name("db"), CONTRACT, 1).unwrap();
    publication.remove(&mut root).unwrap();
    assert!(root.observations.is_empty());
}

#[test]
fn realm_mapping_isolates_exact_slots() {
    let mut root: Root<u32> = Root::new(1);
    let a = active_fiber(&mut root, Vec::new());
    let realm = root.new_service_realm();
    assert!(realm.belongs_to(1));
    assert_ne!(realm.key(), DEFAULT_REALM);
    let plain = Context::new(a);
    let isolated = plain.with_service_realms(&root, &vec![(name("db"), realm)]).unwrap();
    assert_eq!(isolated.isolate_key(&name("db")), realm.key());
    assert_eq!(isolated.isolate_key(&name("cache")), DEFAULT_REALM);
    isolated.provide(&mut root, &name("db"), CONTRACT, 7).unwrap();
    assert_eq!(isolated.try_service(&root, &name("db"), CONTRACT), Ok(&7));
    assert_eq!(
        plain.try_service(&root, &name("db"), CONTRACT),
        Err(ServiceLookupError::Unavailable { service: name("db") })
    );
    plain.provide(&mut root, &name("db"), CONTRACT, 8).unwrap();
    assert_eq!(plain.try_service(&root, &name("db"), CONTRACT), Ok(&8));
    let mut owned = root.services.slots_owned_by(a);
    owned.sort();
    assert_eq!(owned, vec![(name("db"), DEFAULT_REALM), (name("db"), realm.key())]);
}

#[test]
fn invalid_realm_batches_are_refused_whole() {
    let mut root: Root<u32> = Root::new(1);
    let mut other: Root<u32> = Root::new(2);
    let a = active_fiber(&mut root, Vec::new());
    let mine = root.new_service_realm();
    let foreign = other.new_service_realm();
    let ctx = Context::new(a);
    assert_eq!(
        ctx.with_service_realms(&root, &vec![(name("db"), mine), (name("db"), mine)]).err(),
        Some(RealmMappingError::DuplicateService { service: name("db") })
    );
    assert_eq!(
        ctx.with_service_realms(&root, &vec![(name("db"), mine), (name("cache"), foreign)]).err(),
        Some(RealmMappingError::ForeignRealm { service: name("cache") })
    );
    assert!(!mine.same(&foreign) || mine.belongs_to(2));
}

#[test]
fn snapshot_reports_current_publications() {
    let mut root: Root<u32> = Root::new(1);
    let a = active_fiber(&mut root, Vec::new());
    let b = root.spawn(Vec::new());
    let pa = Context::new(a).provide(&mut root, &name("db"), CONTRACT, 1).unwrap();
    Context::new(b).provide(&mut root, &name("cache"), CONTRACT, 2).unwrap();
    let snapshot = root.services.snapshot_occurrences(&root.fibers);
    assert_eq!(snapshot.len(), 2);
    for s in &snapshot {
        if s.service == "db" {
            assert!(s.visible);
            assert_eq!(s.provider, a);
            assert_eq!(s.id, pa.occurrence());
        } else {
            assert!(!s.visible);
            assert_eq!(s.provider, b);
        }
    }
    root.fibers.set_flags(b, true, false, false);
    assert_eq!(root.services.snapshot_occurrences(&root.fibers).len(), 1);
    let vis = root.services.visibility_owned_by(a);
    assert_eq!(vis.len(), 1);
    assert_eq!(vis[0].occurrence, pa.occurrence());
}

#[test]
fn withdraw_is_identity_checked() {
    let mut root: Root<u32> = Root::new(1);
    let a = active_fiber(&mut root, Vec::new());
    let p = Context::new(a).provide(&mut root, &name("db"), CONTRACT, 1).unwrap();
    assert!(root.services.withdraw_exact(DEFAULT_REALM, &name("db"), p.occurrence() + 1).is_none());
    assert_eq!(root.services.occurrence_id(&root.fibers, DEFAULT_REALM, &name("db")), Some(p.occurrence()));
    let removed = root.services.withdraw_exact(DEFAULT_REALM, &name("db"), p.occurrence()).unwrap();
    assert_eq!(removed.value, 1);
    assert_eq!(root.services.occurrence_id(&root.fibers, DEFAULT_REALM, &name("db")), None);
}

#[test]
fn incomplete_projection_falls_back_to_scanning() {
    let mut root: Root<u32> = Root::new(1);
    let dependent = active_fiber(&mut root, vec![DependencyEdge::new(name("db"), DEFAULT_REALM)]);
    let bystander = active_fiber(&mut root, vec![DependencyEdge::new(name("cache"), DEFAULT_REALM)]);
    root.deps.disable_for_test();
    let affected = root.notify_dependents_for_edges(&vec![DependencyEdge::new(name("db"), DEFAULT_REALM)]);
    assert_eq!(affected, vec![dependent]);
    assert!(root.fibers.get(dependent).unwrap().recheck);
    assert!(!root.fibers.get(bystander).unwrap().recheck);
}

#[test]
fn effects_commit_in_order() {
    let mut root: Root<u32> = Root::new(1);
    let a = active_fiber(&mut root, Vec::new());
    let ctx = Context::new(a);
    let t0 = ctx.effect(&mut root, 1).unwrap();
    let t1 = ctx.effect(&mut root, 2).unwrap();
    assert!(t0 < t1);
    assert!(root.fibers.remove_disposable(a, t0).is_some());
    assert!(root.fibers.remove_disposable(a, t0).is_none());
}

#[test]
fn store_install_binds_contract_and_evicts_only_unoccupied_slots() {
    let mut fibers = FiberTable::new();
    fibers.insert(Fiber::new(1, Vec::new()));
    fibers.insert(Fiber::new(2, Vec::new()));
    let mut store: ServiceStore<u32> = ServiceStore::new();
    let slot = |occurrence: u64, value: u32, contract: u64, owner: u64| ServiceSlot {
        realm: DEFAULT_REALM,
        service: name("db"),
        occurrence,
        value,
        contract,
        owner,
    };
    assert!(store.install(&fibers, slot(0, 10, 1, 1)).unwrap().is_none());
    match store.install(&fibers, slot(1, 20, 2, 2)) {
        Err((ServiceInstallRefusal::ContractMismatch, refused)) => assert_eq!(refused.value, 20),
        _ => panic!("expected a contract mismatch"),
    }
    match store.install(&fibers, slot(1, 20, 1, 2)) {
        Err((ServiceInstallRefusal::Duplicate, refused)) => assert_eq!(refused.occurrence, 1),
        _ => panic!("expected a duplicate"),
    }
    fibers.set_flags(1, false, false, false);
    let evicted = store.install(&fibers, slot(1, 20, 1, 2)).unwrap().unwrap();
    assert_eq!(evicted.value, 10);
    assert_eq!(store.occurrence_id(&fibers, DEFAULT_REALM, &name("db")), None);
    fibers.set_state(2, FiberState::Active);
    assert_eq!(store.occurrence_id(&fibers, DEFAULT_REALM, &name("db")), Some(1));
}
