//! Runtime-local Service contract binding and the exact-slot occurrence store.
//!
//! Each exact `(realm, Service)` slot carries at most one current publication
//! occurrence. A Service name binds one contract for the Runtime's lifetime.
//! A slot is visible exactly while its owning Fiber is resident, alive and
//! Active; it is occupied (blocks a second publication) while its owner is
//! resident and alive.

use vstd::prelude::*;
use crate::table::{has_key, key_index, unique_keys, to_map, lemma_index, lemma_push, lemma_update, lemma_remove, lemma_distinct};
use crate::fiber::{Fiber, FiberId, FiberState, FiberTable, RealmKey};

verus! {

/// One occupied exact slot: its occurrence identity, payload, contract and owner.
#[derive(Debug)]
pub struct ServiceSlot<V> {
    pub realm: RealmKey,
    pub service: String,
    pub occurrence: u64,
    pub value: V,
    pub contract: u64,
    pub owner: FiberId,
}

pub type SlotKey = (RealmKey, Seq<char>);

pub open spec fn slot_key<V>(s: ServiceSlot<V>) -> SlotKey {
    (s.realm, s.service@)
}

pub open spec fn slot_self<V>(s: ServiceSlot<V>) -> ServiceSlot<V> {
    s
}

pub open spec fn binding_name(b: (String, u64)) -> Seq<char> {
    b.0@
}

pub open spec fn binding_contract(b: (String, u64)) -> u64 {
    b.1
}

/// The owner still holds its slot: resident and not yet dead.
pub open spec fn occupies(fibers: Map<FiberId, Fiber>, owner: FiberId) -> bool {
    fibers.contains_key(owner) && fibers[owner].alive
}

/// A slot owned by `owner` is visible: occupied and Active.
pub open spec fn visible_owner(fibers: Map<FiberId, Fiber>, owner: FiberId) -> bool {
    occupies(fibers, owner) && fibers[owner].state == FiberState::Active
}

/// The owner's generation still admits mutation of its publications.
pub open spec fn spec_mutation_state(fibers: Map<FiberId, Fiber>, owner: FiberId) -> Option<FiberState> {
    if occupies(fibers, owner) && (fibers[owner].state == FiberState::Loading || fibers[owner].state == FiberState::Active) {
        Some(fibers[owner].state)
    } else {
        None
    }
}

/// Why an install into an exact slot was refused.
#[derive(Debug, Clone, Copy, PartialEq, Eq, Structural)]
pub enum ServiceInstallRefusal {
    Duplicate,
    ContractMismatch,
}

/// Exact visible lookup failure.
#[derive(Debug, PartialEq, Eq)]
pub enum ServiceLookupError {
    /// The exact selected realm has no visible publication.
    Unavailable { service: String },
    /// The Runtime already binds this name to another contract.
    ContractMismatch { service: String },
}

/// Failure to control one exact Service publication occurrence.
#[derive(Debug, PartialEq, Eq)]
pub enum ServiceControlError {
    /// The capability no longer names the current occurrence in its exact slot.
    StalePublication { service: String },
    /// The occurrence is still current, but its generation no longer admits mutation.
    MutationClosed { service: String },
}

/// One occupied slot reported for a visibility change.
pub struct ServiceVisibilityOccurrence {
    pub service: String,
    pub realm: RealmKey,
    pub occurrence: u64,
}

/// One current publication in a Runtime snapshot.
pub struct ServiceOccurrenceSnapshot {
    pub id: u64,
    pub service: String,
    pub realm: RealmKey,
    pub provider: FiberId,
    pub visible: bool,
}

/// Contract bindings and exact slots.
pub struct ServiceStore<V> {
    contracts: Vec<(String, u64)>,
    slots: Vec<ServiceSlot<V>>,
}

impl<V> ServiceStore<V> {
    /// Service name to the contract it is bound to.
    pub closed spec fn contracts(&self) -> Map<Seq<char>, u64> {
        to_map(self.contracts@, |b: (String, u64)| binding_name(b), |b: (String, u64)| binding_contract(b))
    }

    /// Exact slot key to its current occurrence.
    pub closed spec fn slots(&self) -> Map<SlotKey, ServiceSlot<V>> {
        to_map(self.slots@, |s: ServiceSlot<V>| slot_key(s), |s: ServiceSlot<V>| slot_self(s))
    }

    pub closed spec fn wf(&self) -> bool {
        &&& unique_keys(self.contracts@, |b: (String, u64)| binding_name(b))
        &&& unique_keys(self.slots@, |s: ServiceSlot<V>| slot_key(s))
        &&& forall|i: int| 0 <= i < self.slots@.len() ==> {
            let s = #[trigger] self.slots@[i];
            self.contracts().contains_key(s.service@) && self.contracts()[s.service@] == s.contract
        }
    }

    /// Every slot sits under its own key and carries its name's bound contract.
    pub proof fn lemma_wf(&self)
        requires
            self.wf(),
        ensures
            forall|k: SlotKey| #[trigger] self.slots().contains_key(k) ==> {
                &&& slot_key(self.slots()[k]) == k
                &&& self.contracts().contains_key(k.1)
                &&& self.contracts()[k.1] == self.slots()[k].contract
            },
    {
        assert forall|k: SlotKey| #[trigger] self.slots().contains_key(k) implies {
            &&& slot_key(self.slots()[k]) == k
            &&& self.contracts().contains_key(k.1)
            &&& self.contracts()[k.1] == self.slots()[k].contract
        } by {
            let i = key_index(self.slots@, |s: ServiceSlot<V>| slot_key(s), k);
            lemma_index(self.slots@, |s: ServiceSlot<V>| slot_key(s), |s: ServiceSlot<V>| slot_self(s), i);
        }
    }

    pub fn new() -> (s: ServiceStore<V>)
        ensures
            s.wf(),
            s.contracts() == Map::<Seq<char>, u64>::empty(),
            s.slots() == Map::<SlotKey, ServiceSlot<V>>::empty(),
    {
        let s = ServiceStore { contracts: Vec::new(), slots: Vec::new() };
        assert(s.contracts() =~= Map::<Seq<char>, u64>::empty());
        assert(s.slots() =~= Map::<SlotKey, ServiceSlot<V>>::empty());
        s
    }

    fn find_contract(&self, name: &String) -> (r: Option<usize>)
        requires
            self.wf(),
        ensures
            match r {
                Some(i) => i < self.contracts@.len() && self.contracts@[i as int].0@ == name@
                    && self.contracts().contains_key(name@) && self.contracts()[name@] == self.contracts@[i as int].1,
                None => !self.contracts().contains_key(name@),
            },
    {
        let mut i: usize = 0;
        while i < self.contracts.len()
            invariant
                self.wf(),
                i <= self.contracts@.len(),
                forall|j: int| 0 <= j < i ==> self.contracts@[j].0@ != name@,
            decreases self.contracts@.len() - i,
        {
            if self.contracts[i].0 == *name {
                proof {
                    lemma_index(self.contracts@, |b: (String, u64)| binding_name(b), |b: (String, u64)| binding_contract(b), i as int);
                }
                return Some(i);
            }
            i = i + 1;
        }
        proof {
            if has_key(self.contracts@, |b: (String, u64)| binding_name(b), name@) {
                let j = choose|j: int| 0 <= j < self.contracts@.len() && #[trigger] binding_name(self.contracts@[j]) == name@;
                assert(self.contracts@[j].0@ == name@);
            }
        }
        None
    }

    fn find_slot(&self, realm: RealmKey, name: &String) -> (r: Option<usize>)
        requires
            self.wf(),
        ensures
            match r {
                Some(i) => i < self.slots@.len() && slot_key(self.slots@[i as int]) == (realm, name@)
                    && self.slots().contains_key((realm, name@)) && self.slots()[(realm, name@)] == self.slots@[i as int],
                None => !self.slots().contains_key((realm, name@)),
            },
    {
        let mut i: usize = 0;
        while i < self.slots.len()
            invariant
                self.wf(),
                i <= self.slots@.len(),
                forall|j: int| 0 <= j < i ==> slot_key(self.slots@[j]) != (realm, name@),
            decreases self.slots@.len() - i,
        {
            if self.slots[i].realm == realm && self.slots[i].service == *name {
                proof {
                    lemma_index(self.slots@, |s: ServiceSlot<V>| slot_key(s), |s: ServiceSlot<V>| slot_self(s), i as int);
                }
                return Some(i);
            }
            i = i + 1;
        }
        proof {
            if has_key(self.slots@, |s: ServiceSlot<V>| slot_key(s), (realm, name@)) {
                let j = choose|j: int| 0 <= j < self.slots@.len() && #[trigger] slot_key(self.slots@[j]) == (realm, name@);
            }
        }
        None
    }
}

/// What an install into the exact slot of `slot` does, given the store before and after.
pub open spec fn install_outcome<V>(
    pre: ServiceStore<V>,
    post: ServiceStore<V>,
    fibers: Map<FiberId, Fiber>,
    slot: ServiceSlot<V>,
    r: Result<Option<ServiceSlot<V>>, (ServiceInstallRefusal, ServiceSlot<V>)>,
) -> bool {
    install_decided_outcome(pre, post, pre.occupant_occupies(fibers, slot_key(slot)), slot, r)
}

/// As [`install_outcome`], with whether the current occupant still occupies the slot decided beforehand.
pub open spec fn install_decided_outcome<V>(
    pre: ServiceStore<V>,
    post: ServiceStore<V>,
    occupied: bool,
    slot: ServiceSlot<V>,
    r: Result<Option<ServiceSlot<V>>, (ServiceInstallRefusal, ServiceSlot<V>)>,
) -> bool {
    let name = slot.service@;
    let k = slot_key(slot);
    if pre.contracts().contains_key(name) && pre.contracts()[name] != slot.contract {
        &&& r == Err::<Option<ServiceSlot<V>>, (ServiceInstallRefusal, ServiceSlot<V>)>((ServiceInstallRefusal::ContractMismatch, slot))
        &&& post.contracts() == pre.contracts()
        &&& post.slots() == pre.slots()
    } else {
        &&& post.contracts() == pre.contracts().insert(name, slot.contract)
        &&& if pre.slots().contains_key(k) && occupied {
            &&& r == Err::<Option<ServiceSlot<V>>, (ServiceInstallRefusal, ServiceSlot<V>)>((ServiceInstallRefusal::Duplicate, slot))
            &&& post.slots() == pre.slots()
        } else {
            &&& r == Ok::<Option<ServiceSlot<V>>, (ServiceInstallRefusal, ServiceSlot<V>)>(
                if pre.slots().contains_key(k) { Some(pre.slots()[k]) } else { None })
            &&& post.slots() == pre.slots().insert(k, slot)
        }
    }
}

impl<V> ServiceStore<V> {
    /// Bind the name's contract (once per Runtime) and occupy the exact slot,
    /// evicting a previous occurrence whose owner no longer occupies it.
    pub fn install(&mut self, fibers: &FiberTable, slot: ServiceSlot<V>) -> (r: Result<Option<ServiceSlot<V>>, (ServiceInstallRefusal, ServiceSlot<V>)>)
        requires
            old(self).wf(),
            fibers.wf(),
        ensures
            final(self).wf(),
            install_outcome(*old(self), *final(self), fibers@, slot, r),
    {
        let occupied = self.occupant_occupies_exec(fibers, slot.realm, &slot.service);
        self.install_decided(slot, occupied)
    }

    /// Whether the current occupant of the exact slot still occupies it.
    pub fn occupant_occupies_exec(&self, fibers: &FiberTable, realm: RealmKey, name: &String) -> (b: bool)
        requires
            self.wf(),
            fibers.wf(),
        ensures
            b == self.occupant_occupies(fibers@, (realm, name@)),
    {
        match self.find_slot(realm, name) {
            Some(j) => fiber_occupies(fibers, self.slots[j].owner),
            None => false,
        }
    }

    /// Install with the occupancy of the current occupant decided by the caller.
    pub(crate) fn install_decided(&mut self, slot: ServiceSlot<V>, occupied: bool) -> (r: Result<Option<ServiceSlot<V>>, (ServiceInstallRefusal, ServiceSlot<V>)>)
        requires
            old(self).wf(),
        ensures
            final(self).wf(),
            install_decided_outcome(*old(self), *final(self), occupied, slot, r),
    {
        match self.find_contract(&slot.service) {
            Some(i) => {
                if self.contracts[i].1 != slot.contract {
                    return Err((ServiceInstallRefusal::ContractMismatch, slot));
                }
                proof {
                    assert(self.contracts() =~= old(self).contracts().insert(slot.service@, slot.contract));
                }
            },
            None => {
                let name = slot.service.clone();
                proof {
                    lemma_push(self.contracts@, |b: (String, u64)| binding_name(b), |b: (String, u64)| binding_contract(b), (name, slot.contract));
                }
                self.contracts.push((name, slot.contract));
                proof {
                    assert forall|i: int| 0 <= i < self.slots@.len() implies {
                        let s = #[trigger] self.slots@[i];
                        self.contracts().contains_key(s.service@) && self.contracts()[s.service@] == s.contract
                    } by {
                        let s = self.slots@[i];
                        assert(old(self).contracts().contains_key(s.service@));
                    }
                }
            },
        }
        let ghost mid = *self;
        match self.find_slot(slot.realm, &slot.service) {
            Some(j) => {
                if occupied {
                    return Err((ServiceInstallRefusal::Duplicate, slot));
                }
                proof {
                    lemma_remove(self.slots@, |s: ServiceSlot<V>| slot_key(s), |s: ServiceSlot<V>| slot_self(s), j as int);
                }
                let evicted = self.slots.remove(j);
                proof {
                    assert(!has_key(self.slots@, |s: ServiceSlot<V>| slot_key(s), slot_key(slot))) by {
                        assert(!self.slots().contains_key(slot_key(slot)));
                    }
                    lemma_push(self.slots@, |s: ServiceSlot<V>| slot_key(s), |s: ServiceSlot<V>| slot_self(s), slot);
                }
                self.slots.push(slot);
                proof {
                    assert forall|i: int| 0 <= i < self.slots@.len() implies {
                        let s = #[trigger] self.slots@[i];
                        self.contracts().contains_key(s.service@) && self.contracts()[s.service@] == s.contract
                    } by {
                        if i < self.slots@.len() - 1 {
                            let i2 = if i < j { i } else { i + 1 };
                            assert(self.slots@[i] == mid.slots@[i2]);
                        }
                    }
                    assert(self.slots() =~= old(self).slots().insert(slot_key(slot), slot));
                }
                Ok(Some(evicted))
            },
            None => {
                proof {
                    assert(!has_key(self.slots@, |s: ServiceSlot<V>| slot_key(s), slot_key(slot))) by {
                        assert(!self.slots().contains_key(slot_key(slot)));
                    }
                    lemma_push(self.slots@, |s: ServiceSlot<V>| slot_key(s), |s: ServiceSlot<V>| slot_self(s), slot);
                }
                self.slots.push(slot);
                proof {
                    assert forall|i: int| 0 <= i < self.slots@.len() implies {
                        let s = #[trigger] self.slots@[i];
                        self.contracts().contains_key(s.service@) && self.contracts()[s.service@] == s.contract
                    } by {
                        if i < self.slots@.len() - 1 {
                            assert(self.slots@[i] == mid.slots@[i]);
                        }
                    }
                }
                Ok(None)
            },
        }
    }
}

impl<V> ServiceStore<V> {
    /// The exact slot is occupied by an owner that still occupies it.
    pub open spec fn occupant_occupies(&self, fibers: Map<FiberId, Fiber>, k: SlotKey) -> bool {
        self.slots().contains_key(k) && occupies(fibers, self.slots()[k].owner)
    }

    /// The current occurrence in the exact slot is visible.
    pub open spec fn spec_visible_at(&self, fibers: Map<FiberId, Fiber>, k: SlotKey) -> bool {
        self.slots().contains_key(k) && visible_owner(fibers, self.slots()[k].owner)
    }

    /// The exact slot holds occurrence `occurrence`.
    pub open spec fn current_is(&self, k: SlotKey, occurrence: u64) -> bool {
        self.slots().contains_key(k) && self.slots()[k].occurrence == occurrence
    }

    /// The visible occurrence identity of the exact slot, if any.
    pub fn occurrence_id(&self, fibers: &FiberTable, realm: RealmKey, name: &String) -> (r: Option<u64>)
        requires
            self.wf(),
            fibers.wf(),
        ensures
            r == (if self.spec_visible_at(fibers@, (realm, name@)) {
                Some(self.slots()[(realm, name@)].occurrence)
            } else {
                None::<u64>
            }),
    {
        match self.find_slot(realm, name) {
            Some(j) => {
                if fiber_visible(fibers, self.slots[j].owner) {
                    Some(self.slots[j].occurrence)
                } else {
                    None
                }
            },
            None => None,
        }
    }

    /// Resolve only the exact slot: a contract mismatch first, then visibility.
    pub fn visible_value(&self, fibers: &FiberTable, realm: RealmKey, name: &String, contract: u64) -> (r: Result<&V, ServiceLookupError>)
        requires
            self.wf(),
            fibers.wf(),
        ensures
            ({
                let k = (realm, name@);
                let mismatch = self.contracts().contains_key(name@) && self.contracts()[name@] != contract;
                match r {
                    Ok(v) => !mismatch && self.spec_visible_at(fibers@, k) && *v == self.slots()[k].value
                        && self.slots()[k].contract == contract,
                    Err(ServiceLookupError::ContractMismatch { service }) => mismatch && service == *name,
                    Err(ServiceLookupError::Unavailable { service }) => !mismatch && !self.spec_visible_at(fibers@, k)
                        && service == *name,
                }
            }),
    {
        proof {
            self.lemma_wf();
        }
        match self.find_contract(name) {
            Some(i) => {
                if self.contracts[i].1 != contract {
                    return Err(ServiceLookupError::ContractMismatch { service: name.clone() });
                }
            },
            None => {},
        }
        match self.find_slot(realm, name) {
            Some(j) => {
                if fiber_visible(fibers, self.slots[j].owner) {
                    Ok(&self.slots[j].value)
                } else {
                    Err(ServiceLookupError::Unavailable { service: name.clone() })
                }
            },
            None => Err(ServiceLookupError::Unavailable { service: name.clone() }),
        }
    }

    /// Replace only the payload of the exact current occurrence.
    /// Staleness is reported before a closed generation.
    pub fn set_exact(
        &mut self,
        fibers: &FiberTable,
        realm: RealmKey,
        name: &String,
        occurrence: u64,
        owner: FiberId,
        value: V,
    ) -> (r: Result<V, (ServiceControlError, V)>)
        requires
            old(self).wf(),
            fibers.wf(),
        ensures
            final(self).wf(),
            final(self).contracts() == old(self).contracts(),
            ({
                let k = (realm, name@);
                if !old(self).current_is(k, occurrence) {
                    &&& r == Err::<V, (ServiceControlError, V)>((ServiceControlError::StalePublication { service: *name }, value))
                    &&& final(self).slots() == old(self).slots()
                } else if spec_mutation_state(fibers@, owner) is None {
                    &&& r == Err::<V, (ServiceControlError, V)>((ServiceControlError::MutationClosed { service: *name }, value))
                    &&& final(self).slots() == old(self).slots()
                } else {
                    &&& r == Ok::<V, (ServiceControlError, V)>(old(self).slots()[k].value)
                    &&& final(self).slots() == old(self).slots().insert(k, ServiceSlot { value, ..old(self).slots()[k] })
                }
            }),
    {
        match self.find_slot(realm, name) {
            Some(j) => {
                if self.slots[j].occurrence != occurrence {
                    return Err((ServiceControlError::StalePublication { service: name.clone() }, value));
                }
                if mutation_state(fibers, owner).is_none() {
                    return Err((ServiceControlError::MutationClosed { service: name.clone() }, value));
                }
                let mut v = value;
                std::mem::swap(&mut self.slots[j].value, &mut v);
                proof {
                    assert(self.slots@ =~= old(self).slots@.update(j as int, self.slots@[j as int]));
                    lemma_update(old(self).slots@, |s: ServiceSlot<V>| slot_key(s), |s: ServiceSlot<V>| slot_self(s), j as int, self.slots@[j as int]);
                    assert forall|i: int| 0 <= i < self.slots@.len() implies {
                        let s = #[trigger] self.slots@[i];
                        self.contracts().contains_key(s.service@) && self.contracts()[s.service@] == s.contract
                    } by {
                        assert(self.slots@[i].service == old(self).slots@[i].service);
                        assert(self.slots@[i].contract == old(self).slots@[i].contract);
                    }
                    assert(self.slots@[j as int] == ServiceSlot { value, ..old(self).slots()[(realm, name@)] });
                }
                Ok(v)
            },
            None => Err((ServiceControlError::StalePublication { service: name.clone() }, value)),
        }
    }

    /// Remove only the exact current occurrence; report whether it was visible.
    /// Staleness is reported before a closed generation.
    pub fn remove_exact(
        &mut self,
        fibers: &FiberTable,
        realm: RealmKey,
        name: &String,
        occurrence: u64,
        owner: FiberId,
    ) -> (r: Result<(ServiceSlot<V>, bool), ServiceControlError>)
        requires
            old(self).wf(),
            fibers.wf(),
        ensures
            final(self).wf(),
            final(self).contracts() == old(self).contracts(),
            ({
                let k = (realm, name@);
                if !old(self).current_is(k, occurrence) {
                    &&& r == Err::<(ServiceSlot<V>, bool), ServiceControlError>(ServiceControlError::StalePublication { service: *name })
                    &&& final(self).slots() == old(self).slots()
                } else if spec_mutation_state(fibers@, owner) is None {
                    &&& r == Err::<(ServiceSlot<V>, bool), ServiceControlError>(ServiceControlError::MutationClosed { service: *name })
                    &&& final(self).slots() == old(self).slots()
                } else {
                    &&& r == Ok::<(ServiceSlot<V>, bool), ServiceControlError>((old(self).slots()[k],
                        spec_mutation_state(fibers@, owner) == Some(FiberState::Active)))
                    &&& final(self).slots() == old(self).slots().remove(k)
                }
            }),
    {
        match self.find_slot(realm, name) {
            Some(j) => {
                if self.slots[j].occurrence != occurrence {
                    return Err(ServiceControlError::StalePublication { service: name.clone() });
                }
                let owner_state = match mutation_state(fibers, owner) {
                    Some(st) => st,
                    None => {
                        return Err(ServiceControlError::MutationClosed { service: name.clone() });
                    },
                };
                proof {
                    lemma_remove(self.slots@, |s: ServiceSlot<V>| slot_key(s), |s: ServiceSlot<V>| slot_self(s), j as int);
                }
                let removed = self.slots.remove(j);
                proof {
                    assert forall|i: int| 0 <= i < self.slots@.len() implies {
                        let s = #[trigger] self.slots@[i];
                        self.contracts().contains_key(s.service@) && self.contracts()[s.service@] == s.contract
                    } by {
                        let i2 = if i < j { i } else { i + 1 };
                        assert(self.slots@[i] == old(self).slots@[i2]);
                    }
                }
                Ok((removed, owner_state == FiberState::Active))
            },
            None => Err(ServiceControlError::StalePublication { service: name.clone() }),
        }
    }

    /// Lifecycle cleanup: remove the exact occurrence if it is still current.
    pub fn withdraw_exact(&mut self, realm: RealmKey, name: &String, occurrence: u64) -> (r: Option<ServiceSlot<V>>)
        requires
            old(self).wf(),
        ensures
            final(self).wf(),
            final(self).contracts() == old(self).contracts(),
            ({
                let k = (realm, name@);
                if old(self).current_is(k, occurrence) {
                    r == Some(old(self).slots()[k]) && final(self).slots() == old(self).slots().remove(k)
                } else {
                    r is None && final(self).slots() == old(self).slots()
                }
            }),
    {
        match self.find_slot(realm, name) {
            Some(j) => {
                if self.slots[j].occurrence != occurrence {
                    return None;
                }
                proof {
                    lemma_remove(self.slots@, |s: ServiceSlot<V>| slot_key(s), |s: ServiceSlot<V>| slot_self(s), j as int);
                }
                let removed = self.slots.remove(j);
                proof {
                    assert forall|i: int| 0 <= i < self.slots@.len() implies {
                        let s = #[trigger] self.slots@[i];
                        self.contracts().contains_key(s.service@) && self.contracts()[s.service@] == s.contract
                    } by {
                        let i2 = if i < j { i } else { i + 1 };
                        assert(self.slots@[i] == old(self).slots@[i2]);
                    }
                }
                Some(removed)
            },
            None => None,
        }
    }
}

/// A slot's owner holds a current generation: resident and still admitting registrations.
pub open spec fn current_owner(fibers: Map<FiberId, Fiber>, owner: FiberId) -> bool {
    fibers.contains_key(owner) && fibers[owner].admits()
}

impl<V> ServiceStore<V> {
    /// Storage positions, in order, of the slots owned by `owner`.
    fn owned_positions(&self, owner: FiberId) -> (p: Vec<usize>)
        requires
            self.wf(),
        ensures
            forall|a: int| 0 <= a < p@.len() ==> p@[a] < self.slots@.len() && self.slots@[p@[a] as int].owner == owner,
            forall|b: int| 0 <= b < self.slots@.len() && self.slots@[b].owner == owner ==> exists|a: int| 0 <= a < p@.len() && p@[a] == b,
            forall|a1: int, a2: int| 0 <= a1 < a2 < p@.len() ==> p@[a1] < p@[a2],
    {
        let mut p: Vec<usize> = Vec::new();
        let mut b: usize = 0;
        while b < self.slots.len()
            invariant
                b <= self.slots@.len(),
                forall|a: int| 0 <= a < p@.len() ==> p@[a] < b && self.slots@[p@[a] as int].owner == owner,
                forall|c: int| 0 <= c < b && self.slots@[c].owner == owner ==> exists|a: int| 0 <= a < p@.len() && p@[a] == c,
                forall|a1: int, a2: int| 0 <= a1 < a2 < p@.len() ==> p@[a1] < p@[a2],
            decreases self.slots@.len() - b,
        {
            let ghost p0 = p@;
            if self.slots[b].owner == owner {
                p.push(b);
            }
            proof {
                assert forall|c: int| 0 <= c < b + 1 && self.slots@[c].owner == owner
                    implies exists|a: int| 0 <= a < p@.len() && p@[a] == c by {
                    if c < b {
                        let a = choose|a: int| 0 <= a < p0.len() && p0[a] == c;
                        assert(p@[a] == p0[a]);
                    } else {
                        assert(p@[p@.len() - 1] == b);
                    }
                }
            }
            b = b + 1;
        }
        p
    }

    /// Storage positions, in order, of the slots whose owner holds a current generation.
    fn current_positions(&self, fibers: &FiberTable) -> (p: Vec<usize>)
        requires
            self.wf(),
            fibers.wf(),
        ensures
            forall|a: int| 0 <= a < p@.len() ==> p@[a] < self.slots@.len() && current_owner(fibers@, self.slots@[p@[a] as int].owner),
            forall|b: int| 0 <= b < self.slots@.len() && current_owner(fibers@, self.slots@[b].owner) ==> exists|a: int| 0 <= a < p@.len() && p@[a] == b,
            forall|a1: int, a2: int| 0 <= a1 < a2 < p@.len() ==> p@[a1] < p@[a2],
    {
        let mut p: Vec<usize> = Vec::new();
        let mut b: usize = 0;
        while b < self.slots.len()
            invariant
                fibers.wf(),
                b <= self.slots@.len(),
                forall|a: int| 0 <= a < p@.len() ==> p@[a] < b && current_owner(fibers@, self.slots@[p@[a] as int].owner),
                forall|c: int| 0 <= c < b && current_owner(fibers@, self.slots@[c].owner) ==> exists|a: int| 0 <= a < p@.len() && p@[a] == c,
                forall|a1: int, a2: int| 0 <= a1 < a2 < p@.len() ==> p@[a1] < p@[a2],
            decreases self.slots@.len() - b,
        {
            let current = match fibers.get(self.slots[b].owner) {
                Some(f) => f.can_register(),
                None => false,
            };
            let ghost p0 = p@;
            if current {
                p.push(b);
            }
            proof {
                assert forall|c: int| 0 <= c < b + 1 && current_owner(fibers@, self.slots@[c].owner)
                    implies exists|a: int| 0 <= a < p@.len() && p@[a] == c by {
                    if c < b {
                        let a = choose|a: int| 0 <= a < p0.len() && p0[a] == c;
                        assert(p@[a] == p0[a]);
                    } else {
                        assert(p@[p@.len() - 1] == b);
                    }
                }
            }
            b = b + 1;
        }
        p
    }

    proof fn lemma_position(&self, b: int)
        requires
            self.wf(),
            0 <= b < self.slots@.len(),
        ensures
            self.slots().contains_key(slot_key(self.slots@[b])),
            self.slots()[slot_key(self.slots@[b])] == self.slots@[b],
    {
        lemma_index(self.slots@, |s: ServiceSlot<V>| slot_key(s), |s: ServiceSlot<V>| slot_self(s), b);
    }

    proof fn lemma_key_position(&self, k: SlotKey) -> (b: int)
        requires
            self.wf(),
            self.slots().contains_key(k),
        ensures
            0 <= b < self.slots@.len(),
            slot_key(self.slots@[b]) == k,
            self.slots()[k] == self.slots@[b],
    {
        let b = key_index(self.slots@, |s: ServiceSlot<V>| slot_key(s), k);
        lemma_index(self.slots@, |s: ServiceSlot<V>| slot_key(s), |s: ServiceSlot<V>| slot_self(s), b);
        b
    }

    /// The exact occupied slots owned by `owner`, each once.
    pub fn slots_owned_by(&self, owner: FiberId) -> (r: Vec<(String, RealmKey)>)
        requires
            self.wf(),
        ensures
            forall|a: int| #![trigger r@[a]] 0 <= a < r@.len() ==> {
                let k = (r@[a].1, r@[a].0@);
                self.slots().contains_key(k) && self.slots()[k].owner == owner
            },
            forall|k: SlotKey| #[trigger] self.slots().contains_key(k) && self.slots()[k].owner == owner
                ==> exists|a: int| 0 <= a < r@.len() && (r@[a].1, r@[a].0@) == k,
            forall|a1: int, a2: int| 0 <= a1 < r@.len() && 0 <= a2 < r@.len() && a1 != a2
                ==> (r@[a1].1, r@[a1].0@) != (r@[a2].1, r@[a2].0@),
    {
        let p = self.owned_positions(owner);
        let mut r: Vec<(String, RealmKey)> = Vec::new();
        let mut a: usize = 0;
        while a < p.len()
            invariant
                self.wf(),
                a <= p@.len(),
                r@.len() == a,
                forall|c: int| 0 <= c < p@.len() ==> p@[c] < self.slots@.len(),
                forall|c: int| 0 <= c < a ==> (r@[c].1, r@[c].0@) == slot_key(self.slots@[p@[c] as int]),
            decreases p@.len() - a,
        {
            let b = p[a];
            r.push((self.slots[b].service.clone(), self.slots[b].realm));
            a = a + 1;
        }
        proof {
            assert forall|c: int| #![trigger r@[c]] 0 <= c < r@.len() implies {
                let k = (r@[c].1, r@[c].0@);
                self.slots().contains_key(k) && self.slots()[k].owner == owner
            } by {
                self.lemma_position(p@[c] as int);
            }
            assert forall|k: SlotKey| #[trigger] self.slots().contains_key(k) && self.slots()[k].owner == owner
                implies exists|c: int| 0 <= c < r@.len() && (r@[c].1, r@[c].0@) == k by {
                let b = self.lemma_key_position(k);
                let c = choose|c: int| 0 <= c < p@.len() && p@[c] == b;
                assert((r@[c].1, r@[c].0@) == k);
            }
            assert forall|a1: int, a2: int| 0 <= a1 < r@.len() && 0 <= a2 < r@.len() && a1 != a2
                implies (r@[a1].1, r@[a1].0@) != (r@[a2].1, r@[a2].0@) by {
                lemma_distinct(self.slots@, |s: ServiceSlot<V>| slot_key(s), p@[a1] as int, p@[a2] as int);
            }
        }
        r
    }

    /// The occurrences owned by `owner`, each once, for a visibility change.
    pub fn visibility_owned_by(&self, owner: FiberId) -> (r: Vec<ServiceVisibilityOccurrence>)
        requires
            self.wf(),
        ensures
            forall|a: int| #![trigger r@[a]] 0 <= a < r@.len() ==> {
                let k = (r@[a].realm, r@[a].service@);
                self.slots().contains_key(k) && self.slots()[k].owner == owner
                    && self.slots()[k].occurrence == r@[a].occurrence
            },
            forall|k: SlotKey| #[trigger] self.slots().contains_key(k) && self.slots()[k].owner == owner
                ==> exists|a: int| 0 <= a < r@.len() && (r@[a].realm, r@[a].service@) == k,
            forall|a1: int, a2: int| 0 <= a1 < r@.len() && 0 <= a2 < r@.len() && a1 != a2
                ==> (r@[a1].realm, r@[a1].service@) != (r@[a2].realm, r@[a2].service@),
    {
        let p = self.owned_positions(owner);
        let mut r: Vec<ServiceVisibilityOccurrence> = Vec::new();
        let mut a: usize = 0;
        while a < p.len()
            invariant
                self.wf(),
                a <= p@.len(),
                r@.len() == a,
                forall|c: int| 0 <= c < p@.len() ==> p@[c] < self.slots@.len(),
                forall|c: int| 0 <= c < a ==> (r@[c].realm, r@[c].service@) == slot_key(self.slots@[p@[c] as int])
                    && r@[c].occurrence == self.slots@[p@[c] as int].occurrence,
            decreases p@.len() - a,
        {
            let b = p[a];
            r.push(ServiceVisibilityOccurrence {
                service: self.slots[b].service.clone(),
                realm: self.slots[b].realm,
                occurrence: self.slots[b].occurrence,
            });
            a = a + 1;
        }
        proof {
            assert forall|c: int| #![trigger r@[c]] 0 <= c < r@.len() implies {
                let k = (r@[c].realm, r@[c].service@);
                self.slots().contains_key(k) && self.slots()[k].owner == owner
                    && self.slots()[k].occurrence == r@[c].occurrence
            } by {
                self.lemma_position(p@[c] as int);
            }
            assert forall|k: SlotKey| #[trigger] self.slots().contains_key(k) && self.slots()[k].owner == owner
                implies exists|c: int| 0 <= c < r@.len() && (r@[c].realm, r@[c].service@) == k by {
                let b = self.lemma_key_position(k);
                let c = choose|c: int| 0 <= c < p@.len() && p@[c] == b;
                assert((r@[c].realm, r@[c].service@) == k);
            }
            assert forall|a1: int, a2: int| 0 <= a1 < r@.len() && 0 <= a2 < r@.len() && a1 != a2
                implies (r@[a1].realm, r@[a1].service@) != (r@[a2].realm, r@[a2].service@) by {
                lemma_distinct(self.slots@, |s: ServiceSlot<V>| slot_key(s), p@[a1] as int, p@[a2] as int);
            }
        }
        r
    }

    /// Every current publication: its owner is resident and still admits registrations.
    /// Visibility follows the owner's phase.
    pub fn snapshot_occurrences(&self, fibers: &FiberTable) -> (r: Vec<ServiceOccurrenceSnapshot>)
        requires
            self.wf(),
            fibers.wf(),
        ensures
            forall|a: int| #![trigger r@[a]] 0 <= a < r@.len() ==> {
                let k = (r@[a].realm, r@[a].service@);
                let s = self.slots()[k];
                &&& self.slots().contains_key(k)
                &&& current_owner(fibers@, s.owner)
                &&& r@[a].id == s.occurrence
                &&& r@[a].provider == s.owner
                &&& r@[a].visible == (fibers@[s.owner].state == FiberState::Active)
            },
            forall|k: SlotKey| #[trigger] self.slots().contains_key(k) && current_owner(fibers@, self.slots()[k].owner)
                ==> exists|a: int| 0 <= a < r@.len() && (r@[a].realm, r@[a].service@) == k,
            forall|a1: int, a2: int| 0 <= a1 < r@.len() && 0 <= a2 < r@.len() && a1 != a2
                ==> (r@[a1].realm, r@[a1].service@) != (r@[a2].realm, r@[a2].service@),
    {
        let p = self.current_positions(fibers);
        let mut r: Vec<ServiceOccurrenceSnapshot> = Vec::new();
        let mut a: usize = 0;
        while a < p.len()
            invariant
                self.wf(),
                fibers.wf(),
                a <= p@.len(),
                r@.len() == a,
                forall|c: int| 0 <= c < p@.len() ==> p@[c] < self.slots@.len() && current_owner(fibers@, self.slots@[p@[c] as int].owner),
                forall|c: int| #![trigger r@[c]] 0 <= c < a ==> {
                    let s = self.slots@[p@[c] as int];
                    &&& (r@[c].realm, r@[c].service@) == slot_key(s)
                    &&& r@[c].id == s.occurrence
                    &&& r@[c].provider == s.owner
                    &&& r@[c].visible == (fibers@[s.owner].state == FiberState::Active)
                },
            decreases p@.len() - a,
        {
            let b = p[a];
            let owner = self.slots[b].owner;
            let visible = match fibers.get(owner) {
                Some(f) => f.state == FiberState::Active,
                None => false,
            };
            r.push(ServiceOccurrenceSnapshot {
                id: self.slots[b].occurrence,
                service: self.slots[b].service.clone(),
                realm: self.slots[b].realm,
                provider: owner,
                visible,
            });
            a = a + 1;
        }
        proof {
            assert forall|c: int| #![trigger r@[c]] 0 <= c < r@.len() implies {
                let k = (r@[c].realm, r@[c].service@);
                let s = self.slots()[k];
                &&& self.slots().contains_key(k)
                &&& current_owner(fibers@, s.owner)
                &&& r@[c].id == s.occurrence
                &&& r@[c].provider == s.owner
                &&& r@[c].visible == (fibers@[s.owner].state == FiberState::Active)
            } by {
                self.lemma_position(p@[c] as int);
            }
            assert forall|k: SlotKey| #[trigger] self.slots().contains_key(k) && current_owner(fibers@, self.slots()[k].owner)
                implies exists|c: int| 0 <= c < r@.len() && (r@[c].realm, r@[c].service@) == k by {
                let b = self.lemma_key_position(k);
                let c = choose|c: int| 0 <= c < p@.len() && p@[c] == b;
                assert((r@[c].realm, r@[c].service@) == k);
            }
            assert forall|a1: int, a2: int| 0 <= a1 < r@.len() && 0 <= a2 < r@.len() && a1 != a2
                implies (r@[a1].realm, r@[a1].service@) != (r@[a2].realm, r@[a2].service@) by {
                lemma_distinct(self.slots@, |s: ServiceSlot<V>| slot_key(s), p@[a1] as int, p@[a2] as int);
            }
        }
        r
    }
}

/// Whether the resident Fiber `owner` still occupies its slots.
pub fn fiber_occupies(fibers: &FiberTable, owner: FiberId) -> (b: bool)
    requires
        fibers.wf(),
    ensures
        b == occupies(fibers@, owner),
{
    match fibers.get(owner) {
        Some(f) => f.alive,
        None => false,
    }
}

/// Whether slots owned by `owner` are visible.
pub fn fiber_visible(fibers: &FiberTable, owner: FiberId) -> (b: bool)
    requires
        fibers.wf(),
    ensures
        b == visible_owner(fibers@, owner),
{
    match fibers.get(owner) {
        Some(f) => f.alive && f.state == FiberState::Active,
        None => false,
    }
}

/// The lifecycle phase in which `owner` still admits mutation, if any.
pub fn mutation_state(fibers: &FiberTable, owner: FiberId) -> (r: Option<FiberState>)
    requires
        fibers.wf(),
    ensures
        r == spec_mutation_state(fibers@, owner),
{
    match fibers.get(owner) {
        Some(f) => {
            if f.alive && (f.state == FiberState::Loading || f.state == FiberState::Active) {
                Some(f.state)
            } else {
                None
            }
        },
        None => None,
    }
}

} // verus!
