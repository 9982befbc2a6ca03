//! Fibers as the bookkeeping sees them: identity, lifecycle flags, declared
//! dependency edges and the cleanup journal of the current generation.

use vstd::prelude::*;
use crate::table::{has_key, key_index, unique_keys, to_map, lemma_index, lemma_push, lemma_update, lemma_remove, lemma_distinct};
use crate::gated::{Journal, Cleanup, PublishStep, GatedPublishError, push_gated, gated_outcome};

verus! {

/// Identity of one Fiber allocation.
pub type FiberId = u64;

/// Runtime-local Service placement key.
pub type RealmKey = u64;

/// The realm every Service name uses unless a Context maps it elsewhere.
pub const DEFAULT_REALM: u64 = 0;

/// Lifecycle phase of a Fiber generation.
#[derive(Clone, Copy, Debug, PartialEq, Eq, Structural)]
pub enum FiberState {
    Loading,
    Active,
    Unloading,
    Disposed,
}

/// One exact `(Service, realm)` dependency declared by a Fiber.
#[derive(Debug)]
pub struct DependencyEdge {
    pub service: String,
    pub realm: RealmKey,
}

impl DependencyEdge {
    pub open spec fn key(self) -> (Seq<char>, RealmKey) {
        (self.service@, self.realm)
    }

    pub fn new(service: String, realm: RealmKey) -> (e: DependencyEdge)
        ensures
            e.service@ == service@,
            e.realm == realm,
    {
        DependencyEdge { service, realm }
    }

    pub fn duplicate(&self) -> (e: DependencyEdge)
        ensures
            e.key() == self.key(),
    {
        DependencyEdge { service: self.service.clone(), realm: self.realm }
    }
}

/// The keys of a sequence of edges.
pub open spec fn edge_keys(edges: Seq<DependencyEdge>) -> Seq<(Seq<char>, RealmKey)> {
    edges.map_values(|e: DependencyEdge| e.key())
}

/// A resident Fiber: identity, lifecycle flags and its cleanup journal.
pub struct Fiber {
    pub id: FiberId,
    /// Death mark: false once disposal has begun.
    pub alive: bool,
    /// Whether the current generation still admits registrations.
    pub gate_open: bool,
    pub state: FiberState,
    /// Whether an active drain is joining this Fiber's tasks.
    pub draining: bool,
    /// Durable "dependencies changed" mark committed by notification.
    pub recheck: bool,
    pub edges: Vec<DependencyEdge>,
    pub disposables: Journal,
}

impl Fiber {
    pub fn new(id: FiberId, edges: Vec<DependencyEdge>) -> (f: Fiber)
        ensures
            f.id == id,
            f.alive,
            f.gate_open,
            f.state == FiberState::Loading,
            !f.draining,
            !f.recheck,
            f.edges@ == edges@,
            f.disposables.wf(),
            f.disposables@ == Map::<u64, Cleanup>::empty(),
            f.disposables.next_token() == 0,
            f.disposables.can_push(),
    {
        Fiber {
            id,
            alive: true,
            gate_open: true,
            state: FiberState::Loading,
            draining: false,
            recheck: false,
            edges,
            disposables: Journal::new(),
        }
    }

    /// The generation admits registrations: its gate is open and it is not
    /// marked dead (a registration landing after the death mark is refused).
    pub open spec fn admits(self) -> bool {
        self.alive && self.gate_open
    }

    /// Whether the generation admits registrations.
    pub fn can_register(&self) -> (b: bool)
        ensures
            b == self.admits(),
    {
        self.alive && self.gate_open
    }

    /// Everything but the journal is as in `other`.
    pub open spec fn same_but_journal(self, other: Fiber) -> bool {
        &&& self.id == other.id
        &&& self.alive == other.alive
        &&& self.gate_open == other.gate_open
        &&& self.state == other.state
        &&& self.draining == other.draining
        &&& self.recheck == other.recheck
        &&& self.edges@ == other.edges@
    }
}

pub open spec fn fiber_id(f: Fiber) -> FiberId {
    f.id
}

pub open spec fn fiber_self(f: Fiber) -> Fiber {
    f
}

/// The resident Fibers of one Runtime, each identity at most once.
pub struct FiberTable {
    fibers: Vec<Fiber>,
}

impl View for FiberTable {
    type V = Map<FiberId, Fiber>;

    closed spec fn view(&self) -> Map<FiberId, Fiber> {
        to_map(self.fibers@, |f: Fiber| fiber_id(f), |f: Fiber| fiber_self(f))
    }
}

impl FiberTable {
    pub closed spec fn wf(&self) -> bool {
        &&& unique_keys(self.fibers@, |f: Fiber| fiber_id(f))
        &&& forall|i: int| 0 <= i < self.fibers@.len() ==> (#[trigger] self.fibers@[i]).disposables.wf()
    }

    /// The resident Fiber at residence position `i`.
    pub closed spec fn at(&self, i: int) -> Fiber {
        self.fibers@[i]
    }

    /// Resident Fibers in residence order.
    pub closed spec fn order(&self) -> Seq<FiberId> {
        self.fibers@.map_values(|f: Fiber| f.id)
    }

    pub proof fn lemma_wf(&self)
        requires
            self.wf(),
        ensures
            forall|id: FiberId| #[trigger] self@.contains_key(id) ==> self@[id].id == id && self@[id].disposables.wf(),
            forall|i: int| 0 <= i < self.order().len() ==> self@.contains_key(#[trigger] self.order()[i]),
            forall|id: FiberId| #[trigger] self@.contains_key(id) ==> self.order().contains(id),
            forall|i: int, j: int| 0 <= i < self.order().len() && 0 <= j < self.order().len() && i != j
                ==> self.order()[i] != self.order()[j],
    {
        assert forall|id: FiberId| #[trigger] self@.contains_key(id) implies self@[id].id == id && self@[id].disposables.wf() by {
            let i = key_index(self.fibers@, |f: Fiber| fiber_id(f), id);
            lemma_index(self.fibers@, |f: Fiber| fiber_id(f), |f: Fiber| fiber_self(f), i);
        }
        assert forall|i: int| 0 <= i < self.order().len() implies self@.contains_key(#[trigger] self.order()[i]) by {
            lemma_index(self.fibers@, |f: Fiber| fiber_id(f), |f: Fiber| fiber_self(f), i);
        }
        assert forall|id: FiberId| #[trigger] self@.contains_key(id) implies self.order().contains(id) by {
            let i = key_index(self.fibers@, |f: Fiber| fiber_id(f), id);
            assert(self.order()[i] == id);
        }
        assert forall|i: int, j: int| 0 <= i < self.order().len() && 0 <= j < self.order().len() && i != j
            implies self.order()[i] != self.order()[j] by {
            lemma_distinct(self.fibers@, |f: Fiber| fiber_id(f), i, j);
        }
    }

    pub fn new() -> (t: FiberTable)
        ensures
            t.wf(),
            t@ == Map::<FiberId, Fiber>::empty(),
            t.order() == Seq::<FiberId>::empty(),
    {
        let t = FiberTable { fibers: Vec::new() };
        assert(t@ =~= Map::<FiberId, Fiber>::empty());
        assert(t.order() =~= Seq::<FiberId>::empty());
        t
    }

    pub fn len(&self) -> (n: usize)
        ensures
            n == self.order().len(),
    {
        self.fibers.len()
    }

    /// The identity at residence position `i`.
    pub fn id_at(&self, i: usize) -> (id: FiberId)
        requires
            i < self.order().len(),
        ensures
            id == self.order()[i as int],
    {
        self.fibers[i].id
    }

    /// Position of a resident Fiber.
    pub fn find(&self, id: FiberId) -> (r: Option<usize>)
        requires
            self.wf(),
        ensures
            match r {
                Some(i) => i < self.order().len() && self.order()[i as int] == id && self@.contains_key(id)
                    && self@[id] == self.at(i as int),
                None => !self@.contains_key(id),
            },
    {
        let mut i: usize = 0;
        while i < self.fibers.len()
            invariant
                self.wf(),
                i <= self.fibers@.len(),
                forall|j: int| 0 <= j < i ==> self.fibers@[j].id != id,
            decreases self.fibers@.len() - i,
        {
            if self.fibers[i].id == id {
                proof {
                    lemma_index(self.fibers@, |f: Fiber| fiber_id(f), |f: Fiber| fiber_self(f), i as int);
                }
                return Some(i);
            }
            i = i + 1;
        }
        proof {
            if has_key(self.fibers@, |f: Fiber| fiber_id(f), id) {
                let j = choose|j: int| 0 <= j < self.fibers@.len() && #[trigger] fiber_id(self.fibers@[j]) == id;
                assert(self.fibers@[j].id == id);
            }
        }
        None
    }

    /// The resident Fiber with identity `id`.
    pub fn get(&self, id: FiberId) -> (r: Option<&Fiber>)
        requires
            self.wf(),
        ensures
            match r {
                Some(f) => self@.contains_key(id) && *f == self@[id],
                None => !self@.contains_key(id),
            },
    {
        match self.find(id) {
            Some(i) => Some(&self.fibers[i]),
            None => None,
        }
    }

    /// Make a new Fiber resident.
    pub fn insert(&mut self, f: Fiber)
        requires
            old(self).wf(),
            !old(self)@.contains_key(f.id),
            f.disposables.wf(),
        ensures
            final(self).wf(),
            final(self)@ == old(self)@.insert(f.id, f),
            final(self).order() == old(self).order().push(f.id),
    {
        proof {
            lemma_push(self.fibers@, |f: Fiber| fiber_id(f), |f: Fiber| fiber_self(f), f);
        }
        self.fibers.push(f);
        proof {
            assert(self.order() =~= old(self).order().push(f.id));
        }
    }

    /// Drop the last strong handle of a Fiber: it is no longer resident.
    pub fn release(&mut self, id: FiberId) -> (r: Option<Fiber>)
        requires
            old(self).wf(),
        ensures
            final(self).wf(),
            final(self)@ == old(self)@.remove(id),
            match r {
                Some(f) => old(self)@.contains_key(id) && f == old(self)@[id],
                None => !old(self)@.contains_key(id),
            },
    {
        match self.find(id) {
            Some(i) => {
                proof {
                    lemma_remove(self.fibers@, |f: Fiber| fiber_id(f), |f: Fiber| fiber_self(f), i as int);
                }
                let f = self.fibers.remove(i);
                proof {
                    assert forall|j: int| 0 <= j < self.fibers@.len() implies (#[trigger] self.fibers@[j]).disposables.wf() by {
                        if j < i {
                            assert(self.fibers@[j] == old(self).fibers@[j]);
                        } else {
                            assert(self.fibers@[j] == old(self).fibers@[j + 1]);
                        }
                    }
                }
                Some(f)
            },
            None => {
                assert(self@ =~= old(self)@.remove(id));
                None
            },
        }
    }

    proof fn lemma_changed(&self, pre: FiberTable, i: int)
        requires
            pre.wf(),
            0 <= i < pre.fibers@.len(),
            self.fibers@ == pre.fibers@.update(i, self.fibers@[i]),
            self.fibers@[i].id == pre.fibers@[i].id,
            self.fibers@[i].disposables.wf(),
        ensures
            self.wf(),
            self@ == pre@.insert(self.fibers@[i].id, self.fibers@[i]),
            self.order() == pre.order(),
    {
        lemma_update(pre.fibers@, |f: Fiber| fiber_id(f), |f: Fiber| fiber_self(f), i, self.fibers@[i]);
        assert forall|j: int| 0 <= j < self.fibers@.len() implies (#[trigger] self.fibers@[j]).disposables.wf() by {
            if j != i {
                assert(self.fibers@[j] == pre.fibers@[j]);
            }
        }
        assert(self.order() =~= pre.order());
    }

    /// Move a resident Fiber to lifecycle phase `state`.
    pub fn set_state(&mut self, id: FiberId, state: FiberState) -> (found: bool)
        requires
            old(self).wf(),
        ensures
            final(self).wf(),
            found == old(self)@.contains_key(id),
            final(self).order() == old(self).order(),
            final(self)@ == (if found {
                old(self)@.insert(id, Fiber { state, ..old(self)@[id] })
            } else {
                old(self)@
            }),
    {
        match self.find(id) {
            Some(i) => {
                self.fibers[i].state = state;
                proof {
                    assert(self.fibers@ =~= old(self).fibers@.update(i as int, self.fibers@[i as int]));
                    self.lemma_changed(*old(self), i as int);
                    assert(self.fibers@[i as int] == Fiber { state, ..old(self)@[id] });
                }
                true
            },
            None => false,
        }
    }

    /// Set the death mark, the registration gate and the draining flag of a resident Fiber.
    pub fn set_flags(&mut self, id: FiberId, alive: bool, gate_open: bool, draining: bool) -> (found: bool)
        requires
            old(self).wf(),
        ensures
            final(self).wf(),
            found == old(self)@.contains_key(id),
            final(self).order() == old(self).order(),
            final(self)@ == (if found {
                old(self)@.insert(id, Fiber { alive, gate_open, draining, ..old(self)@[id] })
            } else {
                old(self)@
            }),
    {
        match self.find(id) {
            Some(i) => {
                self.fibers[i].alive = alive;
                self.fibers[i].gate_open = gate_open;
                self.fibers[i].draining = draining;
                proof {
                    assert(self.fibers@ =~= old(self).fibers@.update(i as int, self.fibers@[i as int]));
                    self.lemma_changed(*old(self), i as int);
                    assert(self.fibers@[i as int] == Fiber { alive, gate_open, draining, ..old(self)@[id] });
                }
                true
            },
            None => false,
        }
    }

    /// Commit the durable recheck mark on a resident Fiber.
    pub fn commit_recheck(&mut self, id: FiberId)
        requires
            old(self).wf(),
        ensures
            final(self).wf(),
            final(self).order() == old(self).order(),
            final(self)@ == (if old(self)@.contains_key(id) {
                old(self)@.insert(id, Fiber { recheck: true, ..old(self)@[id] })
            } else {
                old(self)@
            }),
    {
        match self.find(id) {
            Some(i) => {
                self.fibers[i].recheck = true;
                proof {
                    assert(self.fibers@ =~= old(self).fibers@.update(i as int, self.fibers@[i as int]));
                    self.lemma_changed(*old(self), i as int);
                    assert(self.fibers@[i as int] == Fiber { recheck: true, ..old(self)@[id] });
                }
            },
            None => {},
        }
    }

    /// Claim the cleanup obligation `token` of a resident Fiber.
    pub fn remove_disposable(&mut self, id: FiberId, token: u64) -> (r: Option<Cleanup>)
        requires
            old(self).wf(),
        ensures
            final(self).wf(),
            final(self).order() == old(self).order(),
            !old(self)@.contains_key(id) ==> r is None && final(self)@ == old(self)@,
            old(self)@.contains_key(id) ==> {
                let f = old(self)@[id];
                &&& final(self)@.dom() == old(self)@.dom()
                &&& final(self)@[id].same_but_journal(f)
                &&& final(self)@[id].disposables@ == f.disposables@.remove(token)
                &&& final(self)@[id].disposables.next_token() == f.disposables.next_token()
                &&& r == (if f.disposables@.contains_key(token) { Some(f.disposables@[token]) } else { None })
                &&& forall|o: FiberId| o != id && #[trigger] old(self)@.contains_key(o) ==> final(self)@[o] == old(self)@[o]
            },
    {
        match self.find(id) {
            Some(i) => {
                let r = self.fibers[i].disposables.remove(token);
                proof {
                    assert(self.fibers@ =~= old(self).fibers@.update(i as int, self.fibers@[i as int]));
                    self.lemma_changed(*old(self), i as int);
                }
                r
            },
            None => None,
        }
    }

    /// Claim the most recently committed cleanup obligation of a resident Fiber.
    pub fn take_latest_disposable(&mut self, id: FiberId) -> (r: Option<(u64, Cleanup)>)
        requires
            old(self).wf(),
        ensures
            final(self).wf(),
            final(self).order() == old(self).order(),
            !old(self)@.contains_key(id) ==> r is None && final(self)@ == old(self)@,
            old(self)@.contains_key(id) ==> {
                let f = old(self)@[id];
                let g = final(self)@[id];
                &&& final(self)@.dom() == old(self)@.dom()
                &&& g.same_but_journal(f)
                &&& g.disposables.next_token() == f.disposables.next_token()
                &&& forall|o: FiberId| o != id && #[trigger] old(self)@.contains_key(o) ==> final(self)@[o] == old(self)@[o]
                &&& (r is None <==> f.disposables@ == Map::<u64, Cleanup>::empty())
                &&& (r is None ==> g.disposables@ == f.disposables@ && g.disposables.count() == f.disposables.count())
                &&& (r matches Some(e) ==> {
                    &&& f.disposables@.contains_key(e.0)
                    &&& f.disposables@[e.0] == e.1
                    &&& g.disposables@ == f.disposables@.remove(e.0)
                    &&& g.disposables.count() == f.disposables.count() - 1
                    &&& forall|t: u64| #[trigger] f.disposables@.contains_key(t) ==> t <= e.0
                })
            },
    {
        match self.find(id) {
            Some(i) => {
                let r = self.fibers[i].disposables.pop_latest();
                proof {
                    assert(self.fibers@ =~= old(self).fibers@.update(i as int, self.fibers@[i as int]));
                    self.lemma_changed(*old(self), i as int);
                }
                r
            },
            None => None,
        }
    }

    /// The gated registration protocol on the resident Fiber `id`.
    pub fn push_gated<S: PublishStep>(&mut self, id: FiberId, cleanup: Cleanup, step: &mut S) -> (r: Result<u64, GatedPublishError>)
        requires
            old(self).wf(),
            old(self)@.contains_key(id) ==> old(self)@[id].disposables.can_push(),
            old(step).ready(),
        ensures
            final(self).wf(),
            final(self).order() == old(self).order(),
            !old(self)@.contains_key(id) ==> r == Err::<u64, GatedPublishError>(GatedPublishError::InactiveContext)
                && final(self)@ == old(self)@ && *final(step) == *old(step),
            old(self)@.contains_key(id) ==> {
                let f = old(self)@[id];
                &&& final(self)@.dom() == old(self)@.dom()
                &&& forall|o: FiberId| o != id && #[trigger] old(self)@.contains_key(o) ==> final(self)@[o] == old(self)@[o]
                &&& gated_outcome(f, final(self)@[id], cleanup, *old(step), *final(step), r)
            },
    {
        match self.find(id) {
            Some(i) => {
                let r = push_gated(&mut self.fibers[i], cleanup, step);
                proof {
                    assert(self.fibers@ =~= old(self).fibers@.update(i as int, self.fibers@[i as int]));
                    self.lemma_changed(*old(self), i as int);
                }
                r
            },
            None => Err(GatedPublishError::InactiveContext),
        }
    }
}

} // verus!
