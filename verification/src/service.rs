//! Services: publishing one generation-owned occurrence into the exact slot a
//! Context selects, looking it up, and controlling it through a move-only
//! capability.

use vstd::prelude::*;
use crate::fiber::{Fiber, FiberId, FiberState, RealmKey};
use crate::gated::{Cleanup, PublishStep, PublishRefused};
use crate::store::{ServiceSlot, ServiceStore, SlotKey, ServiceInstallRefusal, ServiceLookupError, ServiceControlError,
    install_decided_outcome, slot_key, spec_mutation_state};
use crate::listener::{has_listener, listener_position};
use crate::runtime::{Context, Root, RuntimeObservation, ServiceRealm, affected_of, spec_affected, spec_deps_after,
    mark_rechecked, lemma_affected_congruent, lemma_mark_rechecked, same_dependency_facts};

verus! {

/// Service publication admission failure.
#[derive(Debug, PartialEq, Eq)]
pub enum ServicePublishError {
    /// The current Context generation is closed.
    InactiveContext,
    /// The exact slot already has an eligible current publication.
    DuplicatePublication { service: String },
    /// The Runtime already binds this name to another contract.
    ContractMismatch { service: String },
}

/// The publish step of a Service publication: install into the exact slot.
pub(crate) struct ServiceSlotPublish<V> {
    pub(crate) store: ServiceStore<V>,
    pub(crate) slot: Option<ServiceSlot<V>>,
    /// Whether the slot's current occupant still occupies it.
    pub(crate) occupied: bool,
    pub(crate) evicted: Option<ServiceSlot<V>>,
    pub(crate) refused: Option<ServiceInstallRefusal>,
}

impl<V> PublishStep for ServiceSlotPublish<V> {
    closed spec fn ready(&self) -> bool {
        self.store.wf() && self.slot is Some
    }

    closed spec fn publish_post(pre: Self, post: Self, published: bool) -> bool {
        &&& post.store.wf()
        &&& install_decided_outcome(pre.store, post.store, pre.occupied, pre.slot->0,
            if published {
                Ok::<Option<ServiceSlot<V>>, (ServiceInstallRefusal, ServiceSlot<V>)>(post.evicted)
            } else {
                Err::<Option<ServiceSlot<V>>, (ServiceInstallRefusal, ServiceSlot<V>)>((post.refused->0, post.slot->0))
            })
        &&& !published ==> post.refused is Some && post.slot is Some
    }

    fn publish(&mut self) -> (r: Result<(), PublishRefused>) {
        let slot = self.slot.take().unwrap();
        match self.store.install_decided(slot, self.occupied) {
            Ok(evicted) => {
                self.evicted = evicted;
                Ok(())
            },
            Err((refusal, slot)) => {
                self.slot = Some(slot);
                self.refused = Some(refusal);
                Err(PublishRefused)
            },
        }
    }
}

/// The generation no longer admits the cleanup obligation of an effect.
#[derive(Debug, Clone, Copy, PartialEq, Eq, Structural)]
pub enum EffectRegistrationError {
    InactiveContext,
}

impl Context {
    /// Commit the cleanup of user effect `id` to this Context's generation:
    /// the plain gated push, publishing nothing.
    pub fn effect<V>(&self, root: &mut Root<V>, id: u64) -> (r: Result<u64, EffectRegistrationError>)
        requires
            old(root).wf(),
            old(root).fibers@.contains_key(self.fiber) ==> old(root).fibers@[self.fiber].disposables.can_push(),
        ensures
            final(root).wf(),
            final(root).services == old(root).services,
            final(root).deps == old(root).deps,
            final(root).listeners == old(root).listeners,
            final(root).observations == old(root).observations,
            final(root).next_occurrence == old(root).next_occurrence,
            final(root).fibers.order() == old(root).fibers.order(),
            !(old(root).fibers@.contains_key(self.fiber) && old(root).fibers@[self.fiber].admits()) ==> {
                &&& r == Err::<u64, EffectRegistrationError>(EffectRegistrationError::InactiveContext)
                &&& final(root).fibers@ == old(root).fibers@
            },
            old(root).fibers@.contains_key(self.fiber) && old(root).fibers@[self.fiber].admits() ==> {
                let f = old(root).fibers@[self.fiber];
                &&& r == Ok::<u64, EffectRegistrationError>(f.disposables.next_token())
                &&& final(root).fibers@.dom() == old(root).fibers@.dom()
                &&& final(root).fibers@[self.fiber].same_but_journal(f)
                &&& final(root).fibers@[self.fiber].disposables@ == f.disposables@.insert(f.disposables.next_token(), Cleanup::Effect { id })
                &&& forall|o: FiberId| o != self.fiber && #[trigger] old(root).fibers@.contains_key(o)
                    ==> final(root).fibers@[o] == old(root).fibers@[o]
            },
    {
        let mut step = crate::gated::NoPublish;
        match root.fibers.push_gated(self.fiber, Cleanup::Effect { id }, &mut step) {
            Ok(token) => Ok(token),
            Err(_) => Err(EffectRegistrationError::InactiveContext),
        }
    }
}

/// Move-only capability naming one exact Service publication occurrence.
#[derive(Debug)]
pub struct ServicePublication {
    realm: RealmKey,
    service: String,
    occurrence: u64,
    owner: FiberId,
    cleanup: u64,
}

impl ServicePublication {
    pub closed spec fn spec_realm(&self) -> RealmKey {
        self.realm
    }

    pub closed spec fn spec_service(&self) -> String {
        self.service
    }

    pub closed spec fn spec_occurrence(&self) -> u64 {
        self.occurrence
    }

    pub closed spec fn spec_owner(&self) -> FiberId {
        self.owner
    }

    pub closed spec fn spec_cleanup(&self) -> u64 {
        self.cleanup
    }

    /// The occurrence identity this capability names.
    pub fn occurrence(&self) -> (o: u64)
        ensures
            o == self.spec_occurrence(),
    {
        self.occurrence
    }

    /// The realm of the exact slot this capability names.
    pub fn realm(&self) -> (k: RealmKey)
        ensures
            k == self.spec_realm(),
    {
        self.realm
    }
}

/// What `provide` does, given the Runtime before and after.
pub open spec fn provide_outcome<V>(
    pre: Root<V>,
    post: Root<V>,
    ctx: Context,
    service: String,
    contract: u64,
    value: V,
    r: Result<ServicePublication, ServicePublishError>,
) -> bool {
    let fid = ctx.fiber;
    let name = service@;
    let realm = ctx.spec_isolate_key(name);
    let k = (realm, name);
    let occ = pre.next_occurrence;
    if !(pre.fibers@.contains_key(fid) && pre.fibers@[fid].admits()) {
        &&& r == Err::<ServicePublication, ServicePublishError>(ServicePublishError::InactiveContext)
        &&& post.fibers@ == pre.fibers@
        &&& post.fibers.order() == pre.fibers.order()
        &&& post.services.slots() == pre.services.slots()
        &&& post.services.contracts() == pre.services.contracts()
        &&& post.deps@ == pre.deps@
        &&& post.deps.spec_complete() == pre.deps.spec_complete()
        &&& post.observations@ == pre.observations@
        &&& post.next_occurrence == pre.next_occurrence
    } else {
        let f = pre.fibers@[fid];
        let mismatch = pre.services.contracts().contains_key(name) && pre.services.contracts()[name] != contract;
        &&& post.next_occurrence == occ + 1
        &&& post.fibers.order() == pre.fibers.order()
        &&& post.deps.spec_complete() == pre.deps.spec_complete()
        &&& if mismatch {
            &&& r == Err::<ServicePublication, ServicePublishError>(ServicePublishError::ContractMismatch { service })
            &&& post.services.contracts() == pre.services.contracts()
            &&& post.services.slots() == pre.services.slots()
            &&& post.fibers@ == pre.fibers@
            &&& post.deps@ == pre.deps@
            &&& post.observations@ == pre.observations@
        } else if pre.services.occupant_occupies(pre.fibers@, k) {
            &&& r == Err::<ServicePublication, ServicePublishError>(ServicePublishError::DuplicatePublication { service })
            &&& post.services.contracts() == pre.services.contracts().insert(name, contract)
            &&& post.services.slots() == pre.services.slots()
            &&& post.fibers@ == pre.fibers@
            &&& post.deps@ == pre.deps@
            &&& post.observations@ == pre.observations@
        } else {
            let slot = ServiceSlot { realm, service, occurrence: occ, value, contract, owner: fid };
            let token = f.disposables.next_token();
            let active = f.state == FiberState::Active;
            let es = seq![(name, realm)];
            let affected = if active { spec_affected(pre, es) } else { Seq::<FiberId>::empty() };
            &&& r matches Ok(p) && p.spec_realm() == realm && p.spec_service() == service
                && p.spec_occurrence() == occ && p.spec_owner() == fid && p.spec_cleanup() == token
            &&& post.services.contracts() == pre.services.contracts().insert(name, contract)
            &&& post.services.slots() == pre.services.slots().insert(k, slot)
            &&& post.fibers@.dom() == pre.fibers@.dom()
            &&& forall|id: FiberId| id != fid && #[trigger] pre.fibers@.contains_key(id) ==> post.fibers@[id] == (if affected.contains(id) {
                Fiber { recheck: true, ..pre.fibers@[id] }
            } else {
                pre.fibers@[id]
            })
            &&& post.fibers@[fid].id == fid
            &&& post.fibers@[fid].alive == f.alive
            &&& post.fibers@[fid].gate_open == f.gate_open
            &&& post.fibers@[fid].state == f.state
            &&& post.fibers@[fid].draining == f.draining
            &&& post.fibers@[fid].edges@ == f.edges@
            &&& post.fibers@[fid].recheck == (f.recheck || affected.contains(fid))
            &&& post.fibers@[fid].disposables@ == f.disposables@.insert(token,
                Cleanup::WithdrawService { realm, service, occurrence: occ })
            &&& post.fibers@[fid].disposables.next_token() == token + 1
            &&& post.deps@ == (if active { spec_deps_after(pre, es) } else { pre.deps@ })
            &&& post.observations@ == (if active {
                pre.observations@.push(RuntimeObservation::ServiceVisibility {
                    service,
                    realm: ServiceRealm::realm_of(pre.membership, realm),
                    previous: None,
                    current: Some(occ),
                })
            } else {
                pre.observations@
            })
        }
    }
}

impl Context {
    /// Publish one generation-owned occurrence into the exact Service slot
    /// selected by this Context's isolate axis.
    pub fn provide<V>(&self, root: &mut Root<V>, service: &String, contract: u64, value: V) -> (r: Result<ServicePublication, ServicePublishError>)
        requires
            old(root).wf(),
            old(root).next_occurrence < u64::MAX,
            old(root).fibers@.contains_key(self.fiber) ==> old(root).fibers@[self.fiber].disposables.can_push(),
        ensures
            final(root).wf(),
            provide_outcome(*old(root), *final(root), *self, *service, contract, value, r),
    {
        let admitted = match root.fibers.get(self.fiber) {
            Some(f) => f.can_register(),
            None => false,
        };
        if !admitted {
            return Err(ServicePublishError::InactiveContext);
        }
        let realm = self.isolate_key(service);
        let occurrence = root.next_occurrence;
        root.next_occurrence = occurrence + 1;
        let occupied = root.services.occupant_occupies_exec(&root.fibers, realm, service);
        let mut store = ServiceStore::new();
        std::mem::swap(&mut store, &mut root.services);
        let slot = ServiceSlot { realm, service: service.clone(), occurrence, value, contract, owner: self.fiber };
        let mut step = ServiceSlotPublish { store, slot: Some(slot), occupied, evicted: None, refused: None };
        let ghost pre_fibers = root.fibers;
        let committed = root.fibers.push_gated(
            self.fiber,
            Cleanup::WithdrawService { realm, service: service.clone(), occurrence },
            &mut step,
        );
        let ServiceSlotPublish { store, refused, .. } = step;
        root.services = store;
        let cleanup = match committed {
            Ok(t) => t,
            Err(_) => {
                let e = match refused {
                    Some(ServiceInstallRefusal::Duplicate) => ServicePublishError::DuplicatePublication { service: service.clone() },
                    Some(ServiceInstallRefusal::ContractMismatch) => ServicePublishError::ContractMismatch { service: service.clone() },
                    None => ServicePublishError::InactiveContext,
                };
                proof {
                    assert(root.fibers@ =~= old(root).fibers@);
                }
                return Err(e);
            },
        };
        proof {
            old(root).fibers.lemma_wf();
            old(root).services.lemma_wf();
            assert forall|k| #[trigger] root.services.slots().contains_key(k)
                implies root.services.slots()[k].occurrence < root.next_occurrence by {
                if k != slot_key(slot) {
                    assert(old(root).services.slots().contains_key(k));
                }
            }
        }
        let active = match root.fibers.get(self.fiber) {
            Some(f) => f.state == FiberState::Active,
            None => false,
        };
        if active {
            let ghost mid = *root;
            proof {
                let es = seq![(service@, realm)];
                old(root).fibers.lemma_wf();
                assert(same_dependency_facts(mid.fibers@, old(root).fibers@));
                lemma_affected_congruent(mid.deps@, mid.deps.spec_complete(), mid.fibers@, old(root).fibers@, mid.fibers.order(), es);
            }
            root.announce_visibility(service, realm, None, Some(occurrence));
            proof {
                let es = seq![(service@, realm)];
                lemma_mark_rechecked(mid.fibers@, spec_affected(mid, es));
            }
        } else {
            proof {
                assert(forall|id: FiberId| !Seq::<FiberId>::empty().contains(id));
            }
        }
        Ok(ServicePublication { realm, service: service.clone(), occurrence, owner: self.fiber, cleanup })
    }

    /// Resolve only the exact Service slot selected by this Context.
    pub fn try_service<'a, V>(&self, root: &'a Root<V>, service: &String, contract: u64) -> (r: Result<&'a V, ServiceLookupError>)
        requires
            root.wf(),
        ensures
            ({
                let name = service@;
                let k = (self.spec_isolate_key(name), name);
                let mismatch = root.services.contracts().contains_key(name) && root.services.contracts()[name] != contract;
                match r {
                    Ok(v) => !mismatch && root.services.spec_visible_at(root.fibers@, k) && *v == root.services.slots()[k].value
                        && root.services.slots()[k].contract == contract,
                    Err(ServiceLookupError::ContractMismatch { service: s }) => mismatch && s == *service,
                    Err(ServiceLookupError::Unavailable { service: s }) => !mismatch
                        && !root.services.spec_visible_at(root.fibers@, k) && s == *service,
                }
            }),
    {
        let realm = self.isolate_key(service);
        root.services.visible_value(&root.fibers, realm, service, contract)
    }
}

/// What `remove` does, given the Runtime before and after.
pub open spec fn remove_outcome<V>(pre: Root<V>, post: Root<V>, p: ServicePublication, r: Result<(), ServiceControlError>) -> bool {
    &&& post.next_occurrence == pre.next_occurrence
    &&& post.services.contracts() == pre.services.contracts()
    &&& post.fibers.order() == pre.fibers.order()
    &&& post.deps.spec_complete() == pre.deps.spec_complete()
    &&& {
        let k = (p.spec_realm(), p.spec_service()@);
        let owner = p.spec_owner();
        if !pre.services.current_is(k, p.spec_occurrence()) {
            &&& r == Err::<(), ServiceControlError>(ServiceControlError::StalePublication { service: p.spec_service() })
            &&& post.services.slots() == pre.services.slots()
            &&& post.fibers@ == pre.fibers@
            &&& post.deps@ == pre.deps@
            &&& post.observations@ == pre.observations@
        } else if spec_mutation_state(pre.fibers@, owner) is None {
            &&& r == Err::<(), ServiceControlError>(ServiceControlError::MutationClosed { service: p.spec_service() })
            &&& post.services.slots() == pre.services.slots()
            &&& post.fibers@ == pre.fibers@
            &&& post.deps@ == pre.deps@
            &&& post.observations@ == pre.observations@
        } else {
            let f = pre.fibers@[owner];
            let visible = f.state == FiberState::Active;
            let es = seq![(p.spec_service()@, p.spec_realm())];
            let affected = if visible { spec_affected(pre, es) } else { Seq::<FiberId>::empty() };
            &&& r is Ok
            &&& post.services.slots() == pre.services.slots().remove(k)
            &&& post.fibers@.dom() == pre.fibers@.dom()
            &&& forall|id: FiberId| id != owner && #[trigger] pre.fibers@.contains_key(id) ==> post.fibers@[id] == (if affected.contains(id) {
                Fiber { recheck: true, ..pre.fibers@[id] }
            } else {
                pre.fibers@[id]
            })
            &&& post.fibers@[owner].id == owner
            &&& post.fibers@[owner].alive == f.alive
            &&& post.fibers@[owner].gate_open == f.gate_open
            &&& post.fibers@[owner].state == f.state
            &&& post.fibers@[owner].draining == f.draining
            &&& post.fibers@[owner].edges@ == f.edges@
            &&& post.fibers@[owner].recheck == (f.recheck || affected.contains(owner))
            &&& post.fibers@[owner].disposables@ == f.disposables@.remove(p.spec_cleanup())
            &&& post.fibers@[owner].disposables.next_token() == f.disposables.next_token()
            &&& post.deps@ == (if visible { spec_deps_after(pre, es) } else { pre.deps@ })
            &&& post.observations@ == (if visible {
                pre.observations@.push(RuntimeObservation::ServiceVisibility {
                    service: p.spec_service(),
                    realm: ServiceRealm::realm_of(pre.membership, p.spec_realm()),
                    previous: Some(p.spec_occurrence()),
                    current: None,
                })
            } else {
                pre.observations@
            })
        }
    }
}

/// What `set` does, given the Runtime before and after.
pub open spec fn set_outcome<V>(pre: Root<V>, post: Root<V>, p: ServicePublication, value: V, r: Result<(), ServiceControlError>) -> bool {
    let k = (p.spec_realm(), p.spec_service()@);
    &&& post.fibers == pre.fibers
    &&& post.deps == pre.deps
    &&& post.observations == pre.observations
    &&& post.next_occurrence == pre.next_occurrence
    &&& post.services.contracts() == pre.services.contracts()
    &&& if !pre.services.current_is(k, p.spec_occurrence()) {
        &&& r == Err::<(), ServiceControlError>(ServiceControlError::StalePublication { service: p.spec_service() })
        &&& post.services.slots() == pre.services.slots()
    } else if spec_mutation_state(pre.fibers@, p.spec_owner()) is None {
        &&& r == Err::<(), ServiceControlError>(ServiceControlError::MutationClosed { service: p.spec_service() })
        &&& post.services.slots() == pre.services.slots()
    } else {
        &&& r is Ok
        &&& post.services.slots() == pre.services.slots().insert(k, ServiceSlot { value, ..pre.services.slots()[k] })
    }
}

impl ServicePublication {
    /// Replace only this exact publication occurrence's payload. Staleness is
    /// reported before a closed generation; identity is preserved.
    pub fn set<V>(&self, root: &mut Root<V>, value: V) -> (r: Result<(), ServiceControlError>)
        requires
            old(root).wf(),
        ensures
            final(root).wf(),
            set_outcome(*old(root), *final(root), *self, value, r),
    {
        match root.services.set_exact(&root.fibers, self.realm, &self.service, self.occurrence, self.owner, value) {
            Ok(_outgoing) => Ok(()),
            Err((error, _rejected)) => Err(error),
        }
    }

    /// Consume this capability and remove only its exact occurrence. A visible
    /// withdrawal notifies dependents once; the generation's cleanup claim is
    /// disarmed.
    pub fn remove<V>(self, root: &mut Root<V>) -> (r: Result<(), ServiceControlError>)
        requires
            old(root).wf(),
        ensures
            final(root).wf(),
            remove_outcome(*old(root), *final(root), self, r),
    {
        let ServicePublication { realm, service, occurrence, owner, cleanup } = self;
        let was_visible = match root.services.remove_exact(&root.fibers, realm, &service, occurrence, owner) {
            Ok((_removed, was_visible)) => was_visible,
            Err(e) => {
                return Err(e);
            },
        };
        proof {
            old(root).fibers.lemma_wf();
            assert forall|k| #[trigger] root.services.slots().contains_key(k)
                implies root.services.slots()[k].occurrence < root.next_occurrence by {
                assert(old(root).services.slots().contains_key(k));
            }
        }
        let _claimed = root.fibers.remove_disposable(owner, cleanup);
        if was_visible {
            let ghost mid = *root;
            proof {
                let es = seq![(service@, realm)];
                assert(same_dependency_facts(mid.fibers@, old(root).fibers@));
                lemma_affected_congruent(mid.deps@, mid.deps.spec_complete(), mid.fibers@, old(root).fibers@, mid.fibers.order(), es);
            }
            root.announce_visibility(&service, realm, Some(occurrence), None);
            proof {
                let es = seq![(service@, realm)];
                lemma_mark_rechecked(mid.fibers@, spec_affected(mid, es));
            }
        } else {
            proof {
                assert(forall|id: FiberId| !Seq::<FiberId>::empty().contains(id));
            }
        }
        Ok(())
    }
}


/// What running one cleanup obligation does, given the Runtime before and after.
pub open spec fn cleanup_outcome<V>(pre: Root<V>, post: Root<V>, cleanup: Cleanup, r: Option<u64>) -> bool {
    &&& post.fibers == pre.fibers
    &&& post.deps == pre.deps
    &&& post.observations == pre.observations
    &&& post.next_occurrence == pre.next_occurrence
    &&& post.services.contracts() == pre.services.contracts()
    &&& match cleanup {
        Cleanup::WithdrawService { realm, service, occurrence } => {
            let k = (realm, service@);
            &&& r is None
            &&& post.listeners == pre.listeners
            &&& post.services.slots() == (if pre.services.current_is(k, occurrence) {
                pre.services.slots().remove(k)
            } else {
                pre.services.slots()
            })
        },
        Cleanup::RemoveListener { id } => {
            &&& r is None
            &&& post.services.slots() == pre.services.slots()
            &&& post.listeners.next_id() == pre.listeners.next_id()
            &&& forall|x: u64| #[trigger] has_listener(post.listeners@, x) == (has_listener(pre.listeners@, x) && x != id)
            &&& post.listeners@ == (if has_listener(pre.listeners@, id) {
                pre.listeners@.remove(listener_position(pre.listeners@, id))
            } else {
                pre.listeners@
            })
        },
        Cleanup::Effect { id } => {
            &&& r == Some(id)
            &&& post.listeners == pre.listeners
            &&& post.services.slots() == pre.services.slots()
        },
    }
}

impl<V> Root<V> {
    /// Run one claimed cleanup obligation of a generation. A Service
    /// withdrawal removes its row only while that exact occurrence is still
    /// current; a user effect is handed back by its id to be run by its owner.
    pub fn run_cleanup(&mut self, cleanup: Cleanup) -> (r: Option<u64>)
        requires
            old(self).wf(),
        ensures
            final(self).wf(),
            cleanup_outcome(*old(self), *final(self), cleanup, r),
    {
        match cleanup {
            Cleanup::WithdrawService { realm, service, occurrence } => {
                let _removed = self.services.withdraw_exact(realm, &service, occurrence);
                proof {
                    assert forall|k| #[trigger] self.services.slots().contains_key(k)
                        implies self.services.slots()[k].occurrence < self.next_occurrence by {
                        assert(old(self).services.slots().contains_key(k));
                    }
                }
                None
            },
            Cleanup::RemoveListener { id } => {
                let _removed = self.listeners.remove(id);
                None
            },
            Cleanup::Effect { id } => Some(id),
        }
    }
}


/// Cleanup `c` withdraws exactly occurrence `occurrence` from slot `k`.
pub open spec fn withdraws(c: Cleanup, k: SlotKey, occurrence: u64) -> bool {
    c matches Cleanup::WithdrawService { realm, service, occurrence: o } && realm == k.0 && service@ == k.1 && o == occurrence
}

/// Cleanup `c` unregisters the listener occurrence `id`.
pub open spec fn removes_listener(c: Cleanup, id: u64) -> bool {
    c matches Cleanup::RemoveListener { id: x } && x == id
}

/// Some obligation of journal `j` withdraws occurrence `occurrence` from slot `k`.
pub open spec fn journal_withdraws(j: Map<u64, Cleanup>, k: SlotKey, occurrence: u64) -> bool {
    exists|t: u64| j.contains_key(t) && #[trigger] withdraws(j[t], k, occurrence)
}

/// Some obligation of journal `j` unregisters the listener occurrence `id`.
pub open spec fn journal_removes_listener(j: Map<u64, Cleanup>, id: u64) -> bool {
    exists|t: u64| j.contains_key(t) && #[trigger] removes_listener(j[t], id)
}

/// The journal a drain of `fid` runs: the resident generation's, or none.
pub open spec fn drained_journal<V>(pre: Root<V>, fid: FiberId) -> Map<u64, Cleanup> {
    if pre.fibers@.contains_key(fid) {
        pre.fibers@[fid].disposables@
    } else {
        Map::<u64, Cleanup>::empty()
    }
}

/// What draining the cleanup journal of `fid` does, given the Runtime before
/// and after and the user effects handed back as `(token, effect id)`.
pub open spec fn drain_outcome<V>(pre: Root<V>, post: Root<V>, fid: FiberId, r: Seq<(u64, u64)>) -> bool {
    let j = drained_journal(pre, fid);
    &&& post.deps == pre.deps
    &&& post.observations == pre.observations
    &&& post.next_occurrence == pre.next_occurrence
    &&& post.services.contracts() == pre.services.contracts()
    &&& post.fibers.order() == pre.fibers.order()
    &&& post.fibers@.dom() == pre.fibers@.dom()
    &&& forall|o: FiberId| o != fid && #[trigger] pre.fibers@.contains_key(o) ==> post.fibers@[o] == pre.fibers@[o]
    &&& pre.fibers@.contains_key(fid) ==> {
        &&& post.fibers@[fid].same_but_journal(pre.fibers@[fid])
        &&& post.fibers@[fid].disposables@ == Map::<u64, Cleanup>::empty()
        &&& post.fibers@[fid].disposables.next_token() == pre.fibers@[fid].disposables.next_token()
    }
    &&& forall|k: SlotKey| #[trigger] post.services.slots().contains_key(k) == (pre.services.slots().contains_key(k)
        && !journal_withdraws(j, k, pre.services.slots()[k].occurrence))
    &&& forall|k: SlotKey| #[trigger] post.services.slots().contains_key(k) ==> post.services.slots()[k] == pre.services.slots()[k]
    &&& post.listeners.next_id() == pre.listeners.next_id()
    &&& forall|x: u64| #[trigger] has_listener(post.listeners@, x) == (has_listener(pre.listeners@, x)
        && !journal_removes_listener(j, x))
    &&& forall|i: int| 0 <= i < r.len() ==> j.contains_key(#[trigger] r[i].0) && j[r[i].0] == (Cleanup::Effect { id: r[i].1 })
    &&& forall|t: u64| #[trigger] j.contains_key(t) && j[t] is Effect ==> exists|i: int| 0 <= i < r.len() && #[trigger] r[i].0 == t
    &&& forall|i: int, i2: int| 0 <= i < i2 < r.len() ==> #[trigger] r[i].0 > #[trigger] r[i2].0
}

proof fn lemma_journal_insert(j: Map<u64, Cleanup>, t: u64, c: Cleanup)
    requires
        !j.contains_key(t),
    ensures
        forall|k: SlotKey, o: u64| #[trigger] journal_withdraws(j.insert(t, c), k, o) == (journal_withdraws(j, k, o) || withdraws(c, k, o)),
        forall|x: u64| #[trigger] journal_removes_listener(j.insert(t, c), x) == (journal_removes_listener(j, x) || removes_listener(c, x)),
{
    let j2 = j.insert(t, c);
    assert forall|k: SlotKey, o: u64| #[trigger] journal_withdraws(j2, k, o) == (journal_withdraws(j, k, o) || withdraws(c, k, o)) by {
        if journal_withdraws(j2, k, o) {
            let u = choose|u: u64| j2.contains_key(u) && #[trigger] withdraws(j2[u], k, o);
            if u != t {
                assert(j.contains_key(u) && withdraws(j[u], k, o));
            }
        }
        if journal_withdraws(j, k, o) {
            let u = choose|u: u64| j.contains_key(u) && #[trigger] withdraws(j[u], k, o);
            assert(j2.contains_key(u) && withdraws(j2[u], k, o));
        }
        if withdraws(c, k, o) {
            assert(j2.contains_key(t) && withdraws(j2[t], k, o));
        }
    }
    assert forall|x: u64| #[trigger] journal_removes_listener(j2, x) == (journal_removes_listener(j, x) || removes_listener(c, x)) by {
        if journal_removes_listener(j2, x) {
            let u = choose|u: u64| j2.contains_key(u) && #[trigger] removes_listener(j2[u], x);
            if u != t {
                assert(j.contains_key(u) && removes_listener(j[u], x));
            }
        }
        if journal_removes_listener(j, x) {
            let u = choose|u: u64| j.contains_key(u) && #[trigger] removes_listener(j[u], x);
            assert(j2.contains_key(u) && removes_listener(j2[u], x));
        }
        if removes_listener(c, x) {
            assert(j2.contains_key(t) && removes_listener(j2[t], x));
        }
    }
}

impl<V> Root<V> {
    /// Drain the cleanup journal of the generation `fid`, latest obligation
    /// first: withdrawals remove only rows whose occurrence is still current,
    /// listener removals unregister their occurrence, and user effects are
    /// handed back in drain order as `(token, effect id)` for their owner to run.
    pub fn drain_fiber(&mut self, fid: FiberId) -> (r: Vec<(u64, u64)>)
        requires
            old(self).wf(),
        ensures
            final(self).wf(),
            drain_outcome(*old(self), *final(self), fid, r@),
    {
        let ghost pre = *self;
        let ghost j0 = drained_journal(pre, fid);
        let ghost mut done = Map::<u64, Cleanup>::empty();
        let mut out: Vec<(u64, u64)> = Vec::new();
        proof {
            self.fibers.lemma_wf();
        }
        if self.fibers.find(fid).is_none() {
            proof {
                assert(j0 =~= Map::<u64, Cleanup>::empty());
                assert forall|k: SlotKey, o: u64| !journal_withdraws(j0, k, o) by {}
                assert forall|x: u64| !journal_removes_listener(j0, x) by {}
            }
            return out;
        }
        loop
            invariant
                pre.fibers@.contains_key(fid),
                j0 == pre.fibers@[fid].disposables@,
                self.wf(),
                self.deps == pre.deps,
                self.observations == pre.observations,
                self.next_occurrence == pre.next_occurrence,
                self.services.contracts() == pre.services.contracts(),
                self.fibers.order() == pre.fibers.order(),
                self.fibers@.dom() == pre.fibers@.dom(),
                forall|o: FiberId| o != fid && #[trigger] pre.fibers@.contains_key(o) ==> self.fibers@[o] == pre.fibers@[o],
                self.fibers@[fid].same_but_journal(pre.fibers@[fid]),
                self.fibers@[fid].disposables.next_token() == pre.fibers@[fid].disposables.next_token(),
                forall|t: u64| #[trigger] j0.contains_key(t) == (self.fibers@[fid].disposables@.contains_key(t) || done.contains_key(t)),
                forall|t: u64| #[trigger] self.fibers@[fid].disposables@.contains_key(t) ==> !done.contains_key(t)
                    && self.fibers@[fid].disposables@[t] == j0[t],
                forall|t: u64| #[trigger] done.contains_key(t) ==> done[t] == j0[t],
                forall|k: SlotKey| #[trigger] self.services.slots().contains_key(k) == (pre.services.slots().contains_key(k)
                    && !journal_withdraws(done, k, pre.services.slots()[k].occurrence)),
                forall|k: SlotKey| #[trigger] self.services.slots().contains_key(k) ==> self.services.slots()[k] == pre.services.slots()[k],
                self.listeners.next_id() == pre.listeners.next_id(),
                forall|x: u64| #[trigger] has_listener(self.listeners@, x) == (has_listener(pre.listeners@, x)
                    && !journal_removes_listener(done, x)),
                forall|i: int| 0 <= i < out@.len() ==> done.contains_key(#[trigger] out@[i].0) && done[out@[i].0] == (Cleanup::Effect { id: out@[i].1 }),
                forall|t: u64| #[trigger] done.contains_key(t) && done[t] is Effect ==> exists|i: int| 0 <= i < out@.len() && #[trigger] out@[i].0 == t,
                forall|i: int, i2: int| 0 <= i < i2 < out@.len() ==> #[trigger] out@[i].0 > #[trigger] out@[i2].0,
                forall|i: int, t: u64| 0 <= i < out@.len() && #[trigger] self.fibers@[fid].disposables@.contains_key(t) ==> t < #[trigger] out@[i].0,
            ensures
                self.fibers@[fid].disposables@ == Map::<u64, Cleanup>::empty(),
            decreases self.fibers@[fid].disposables.count(),
        {
            let ghost before = *self;
            match self.fibers.take_latest_disposable(fid) {
                None => {
                    break;
                },
                Some((t, c)) => {
                    let ghost gc = c;
                    proof {
                        lemma_journal_insert(done, t, gc);
                        assert forall|k| #[trigger] self.services.slots().contains_key(k)
                            implies self.services.slots()[k].occurrence < self.next_occurrence by {}
                    }
                    let x = self.run_cleanup(c);
                    let ghost done2 = done.insert(t, gc);
                    proof {
                        assert forall|k: SlotKey| #[trigger] self.services.slots().contains_key(k) == (pre.services.slots().contains_key(k)
                            && !journal_withdraws(done2, k, pre.services.slots()[k].occurrence)) by {
                            assert(journal_withdraws(done2, k, pre.services.slots()[k].occurrence)
                                == (journal_withdraws(done, k, pre.services.slots()[k].occurrence) || withdraws(gc, k, pre.services.slots()[k].occurrence)));
                        }
                        assert forall|y: u64| #[trigger] has_listener(self.listeners@, y) == (has_listener(pre.listeners@, y)
                            && !journal_removes_listener(done2, y)) by {
                            assert(journal_removes_listener(done2, y) == (journal_removes_listener(done, y) || removes_listener(gc, y)));
                            assert(has_listener(before.listeners@, y) == (has_listener(pre.listeners@, y) && !journal_removes_listener(done, y)));
                        }
                    }
                    let ghost out0 = out@;
                    match x {
                        Some(id) => {
                            out.push((t, id));
                        },
                        None => {},
                    }
                    proof {
                        assert forall|t2: u64| #[trigger] done2.contains_key(t2) && done2[t2] is Effect
                            implies exists|i: int| 0 <= i < out@.len() && #[trigger] out@[i].0 == t2 by {
                            if t2 == t {
                                assert(out@[out@.len() - 1].0 == t2);
                            } else {
                                let i = choose|i: int| 0 <= i < out0.len() && #[trigger] out0[i].0 == t2;
                                assert(out@[i] == out0[i]);
                            }
                        }
                        done = done2;
                    }
                },
            }
        }
        proof {
            assert(done =~= j0);
        }
        out
    }
}

} // verus!
