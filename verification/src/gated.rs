//! The gated-publish seam: gate, publish, then commit the cleanup obligation.
//!
//! Every registration that is bound to a Fiber generation crosses
//! [`push_gated`]: the generation's registration gate is checked, the
//! resource is made visible by a [`PublishStep`] (a refusal means nothing
//! happened), and only then is the cleanup obligation appended to the
//! generation's journal. The exclusive borrow of the Fiber makes check,
//! publish and push one critical section.

use vstd::prelude::*;
use crate::table::{has_key, key_index, unique_keys, to_map, lemma_index, lemma_push, lemma_update, lemma_remove, lemma_distinct};
use crate::fiber::{Fiber, RealmKey};

verus! {

/// A cleanup obligation owned by one Fiber generation, recorded as data.
#[derive(Debug)]
pub enum Cleanup {
    /// Withdraw exactly this Service publication occurrence, if still current.
    WithdrawService { realm: RealmKey, service: String, occurrence: u64 },
    /// Unregister exactly this listener occurrence, if still registered.
    RemoveListener { id: u64 },
    /// Run the user effect cleanup `id`.
    Effect { id: u64 },
}

/// Token naming one entry of a cleanup journal.
pub type DisposableToken = u64;

pub open spec fn entry_token(e: (u64, Cleanup)) -> u64 {
    e.0
}

pub open spec fn entry_cleanup(e: (u64, Cleanup)) -> Cleanup {
    e.1
}

/// The cleanup obligations committed by one generation, keyed by token.
/// Tokens are handed out in increasing order, so the token order is the
/// commit order.
pub struct Journal {
    entries: Vec<(u64, Cleanup)>,
    next: u64,
}

impl View for Journal {
    type V = Map<u64, Cleanup>;

    closed spec fn view(&self) -> Map<u64, Cleanup> {
        to_map(self.entries@, |e: (u64, Cleanup)| entry_token(e), |e: (u64, Cleanup)| entry_cleanup(e))
    }
}

impl Journal {
    pub closed spec fn wf(&self) -> bool {
        &&& unique_keys(self.entries@, |e: (u64, Cleanup)| entry_token(e))
        &&& forall|i: int| 0 <= i < self.entries@.len() ==> (#[trigger] self.entries@[i]).0 < self.next
        &&& forall|i: int, j: int| 0 <= i < j < self.entries@.len() ==> #[trigger] self.entries@[i].0 < #[trigger] self.entries@[j].0
    }

    /// The number of obligations in the journal.
    pub closed spec fn count(&self) -> nat {
        self.entries@.len()
    }

    /// The token the next push hands out.
    pub closed spec fn next_token(&self) -> u64 {
        self.next
    }

    pub open spec fn can_push(&self) -> bool {
        self.next_token() < u64::MAX
    }

    pub proof fn lemma_tokens_below_next(&self)
        requires
            self.wf(),
        ensures
            forall|t: u64| #[trigger] self@.contains_key(t) ==> t < self.next_token(),
    {
        assert forall|t: u64| #[trigger] self@.contains_key(t) implies t < self.next_token() by {
            let i = key_index(self.entries@, |e: (u64, Cleanup)| entry_token(e), t);
            assert(self.entries@[i].0 == t);
        }
    }

    /// Whether another obligation can be committed.
    pub fn has_room(&self) -> (b: bool)
        ensures
            b == self.can_push(),
    {
        self.next < u64::MAX
    }

    pub fn new() -> (j: Journal)
        ensures
            j.wf(),
            j@ == Map::<u64, Cleanup>::empty(),
            j.next_token() == 0,
    {
        let j = Journal { entries: Vec::new(), next: 0 };
        assert(j@ =~= Map::<u64, Cleanup>::empty());
        j
    }

    /// Commit one cleanup obligation; its token is the next in commit order.
    pub fn push(&mut self, cleanup: Cleanup) -> (t: DisposableToken)
        requires
            old(self).wf(),
            old(self).can_push(),
        ensures
            final(self).wf(),
            t == old(self).next_token(),
            !old(self)@.contains_key(t),
            final(self)@ == old(self)@.insert(t, cleanup),
            final(self).next_token() == old(self).next_token() + 1,
            final(self).count() == old(self).count() + 1,
    {
        let t = self.next;
        proof {
            self.lemma_tokens_below_next();
            if has_key(self.entries@, |e: (u64, Cleanup)| entry_token(e), t) {
                let i = choose|i: int| 0 <= i < self.entries@.len() && #[trigger] entry_token(self.entries@[i]) == t;
                assert(self.entries@[i].0 < self.next);
            }
            lemma_push(self.entries@, |e: (u64, Cleanup)| entry_token(e), |e: (u64, Cleanup)| entry_cleanup(e), (t, cleanup));
        }
        self.entries.push((t, cleanup));
        self.next = t + 1;
        proof {
            assert forall|i: int| 0 <= i < self.entries@.len() implies (#[trigger] self.entries@[i]).0 < self.next by {
                if i < old(self).entries@.len() {
                    assert(self.entries@[i] == old(self).entries@[i]);
                }
            }
            assert forall|i: int, j: int| 0 <= i < j < self.entries@.len()
                implies #[trigger] self.entries@[i].0 < #[trigger] self.entries@[j].0 by {
                assert(self.entries@[i] == old(self).entries@[i]);
                if j < old(self).entries@.len() {
                    assert(self.entries@[j] == old(self).entries@[j]);
                }
            }
        }
        t
    }

    /// An empty journal has no obligations.
    pub proof fn lemma_count(&self)
        requires
            self.wf(),
        ensures
            (self.count() == 0) == (self@ == Map::<u64, Cleanup>::empty()),
    {
        if self.count() == 0 {
            assert(self@ =~= Map::<u64, Cleanup>::empty());
        } else {
            lemma_index(self.entries@, |e: (u64, Cleanup)| entry_token(e), |e: (u64, Cleanup)| entry_cleanup(e), 0);
            assert(!Map::<u64, Cleanup>::empty().contains_key(self.entries@[0].0));
        }
    }

    /// Claim the most recently committed obligation (drains run in reverse commit order).
    pub fn pop_latest(&mut self) -> (r: Option<(u64, Cleanup)>)
        requires
            old(self).wf(),
        ensures
            final(self).wf(),
            final(self).next_token() == old(self).next_token(),
            r is None <==> old(self)@ == Map::<u64, Cleanup>::empty(),
            r is None ==> final(self)@ == old(self)@ && final(self).count() == old(self).count(),
            r matches Some(e) ==> {
                &&& old(self)@.contains_key(e.0)
                &&& old(self)@[e.0] == e.1
                &&& final(self)@ == old(self)@.remove(e.0)
                &&& final(self).count() == old(self).count() - 1
                &&& forall|t: u64| #[trigger] old(self)@.contains_key(t) ==> t <= e.0
            },
    {
        proof {
            self.lemma_count();
        }
        if self.entries.len() == 0 {
            return None;
        }
        let last = (self.entries.len() - 1) as usize;
        proof {
            lemma_index(self.entries@, |e: (u64, Cleanup)| entry_token(e), |e: (u64, Cleanup)| entry_cleanup(e), last as int);
            lemma_remove(self.entries@, |e: (u64, Cleanup)| entry_token(e), |e: (u64, Cleanup)| entry_cleanup(e), last as int);
            assert forall|t: u64| #[trigger] old(self)@.contains_key(t) implies t <= old(self).entries@[last as int].0 by {
                let i = key_index(self.entries@, |e: (u64, Cleanup)| entry_token(e), t);
                assert(self.entries@[i].0 == t);
                if i < last {
                    assert(self.entries@[i].0 < self.entries@[last as int].0);
                }
            }
        }
        let e = self.entries.remove(last);
        proof {
            assert forall|j: int| 0 <= j < self.entries@.len() implies (#[trigger] self.entries@[j]).0 < self.next by {
                assert(self.entries@[j] == old(self).entries@[j]);
            }
            assert forall|a: int, b: int| 0 <= a < b < self.entries@.len()
                implies #[trigger] self.entries@[a].0 < #[trigger] self.entries@[b].0 by {
                assert(self.entries@[a] == old(self).entries@[a]);
                assert(self.entries@[b] == old(self).entries@[b]);
            }
        }
        Some(e)
    }

    /// Claim the obligation named by `token`, if it is still in the journal.
    pub fn remove(&mut self, token: DisposableToken) -> (r: Option<Cleanup>)
        requires
            old(self).wf(),
        ensures
            final(self).wf(),
            final(self)@ == old(self)@.remove(token),
            final(self).next_token() == old(self).next_token(),
            r == (if old(self)@.contains_key(token) { Some(old(self)@[token]) } else { None::<Cleanup> }),
            final(self).count() == (if old(self)@.contains_key(token) { old(self).count() - 1 } else { old(self).count() as int }),
    {
        let mut i: usize = 0;
        while i < self.entries.len()
            invariant
                self.wf(),
                *self == *old(self),
                i <= self.entries@.len(),
                forall|j: int| 0 <= j < i ==> self.entries@[j].0 != token,
            decreases self.entries@.len() - i,
        {
            if self.entries[i].0 == token {
                proof {
                    lemma_index(self.entries@, |e: (u64, Cleanup)| entry_token(e), |e: (u64, Cleanup)| entry_cleanup(e), i as int);
                    lemma_remove(self.entries@, |e: (u64, Cleanup)| entry_token(e), |e: (u64, Cleanup)| entry_cleanup(e), i as int);
                }
                let (_, c) = self.entries.remove(i);
                proof {
                    assert forall|j: int| 0 <= j < self.entries@.len() implies (#[trigger] self.entries@[j]).0 < self.next by {
                        if j < i {
                            assert(self.entries@[j] == old(self).entries@[j]);
                        } else {
                            assert(self.entries@[j] == old(self).entries@[j + 1]);
                        }
                    }
                    assert forall|a: int, b: int| 0 <= a < b < self.entries@.len()
                        implies #[trigger] self.entries@[a].0 < #[trigger] self.entries@[b].0 by {
                        let a2 = if a < i { a } else { a + 1 };
                        let b2 = if b < i { b } else { b + 1 };
                        assert(self.entries@[a] == old(self).entries@[a2]);
                        assert(self.entries@[b] == old(self).entries@[b2]);
                    }
                }
                return Some(c);
            }
            i = i + 1;
        }
        proof {
            if has_key(self.entries@, |e: (u64, Cleanup)| entry_token(e), token) {
                let j = choose|j: int| 0 <= j < self.entries@.len() && #[trigger] entry_token(self.entries@[j]) == token;
                assert(self.entries@[j].0 == token);
            }
            assert(self@ =~= old(self)@.remove(token));
        }
        None
    }
}

/// A publish step refused: nothing was published.
#[derive(Debug, Clone, Copy, PartialEq, Eq, Structural)]
pub struct PublishRefused;

/// Why a gated registration did not commit.
#[derive(Debug, Clone, Copy, PartialEq, Eq, Structural)]
pub enum GatedPublishError {
    InactiveContext,
    PublishRefused,
}

/// What a gated push publishes inside its critical section.
pub trait PublishStep: Sized {
    /// The step holds what it needs to run.
    spec fn ready(&self) -> bool;

    /// How the step relates before and after `publish`, given whether it published.
    spec fn publish_post(pre: Self, post: Self, published: bool) -> bool;

    /// Make the resource visible; `Err` means nothing was published.
    fn publish(&mut self) -> (r: Result<(), PublishRefused>)
        requires
            old(self).ready(),
        ensures
            Self::publish_post(*old(self), *final(self), r is Ok),
    ;
}

/// Publish nothing: the plain effect push.
pub struct NoPublish;

impl PublishStep for NoPublish {
    open spec fn ready(&self) -> bool {
        true
    }

    open spec fn publish_post(pre: Self, post: Self, published: bool) -> bool {
        published
    }

    fn publish(&mut self) -> (r: Result<(), PublishRefused>) {
        Ok(())
    }
}

/// What [`push_gated`] guarantees about the Fiber, the step and its result.
pub open spec fn gated_outcome<S: PublishStep>(
    pre: Fiber,
    post: Fiber,
    cleanup: Cleanup,
    step_pre: S,
    step_post: S,
    r: Result<u64, GatedPublishError>,
) -> bool {
    &&& post.same_but_journal(pre)
    &&& post.disposables.wf()
    &&& if !pre.admits() {
        &&& r == Err::<u64, GatedPublishError>(GatedPublishError::InactiveContext)
        &&& post == pre
        &&& step_post == step_pre
    } else {
        &&& S::publish_post(step_pre, step_post, r is Ok)
        &&& match r {
            Ok(t) => {
                &&& t == pre.disposables.next_token()
                &&& !pre.disposables@.contains_key(t)
                &&& post.disposables@ == pre.disposables@.insert(t, cleanup)
                &&& post.disposables.next_token() == t + 1
            },
            Err(e) => {
                &&& e == GatedPublishError::PublishRefused
                &&& post == pre
            },
        }
    }
}

/// The gated, atomic core of every registration: gate, publish, push.
///
/// A closed gate or a death mark refuses before anything runs; a refused publish leaves no
/// obligation behind; only a published resource commits its cleanup.
pub fn push_gated<S: PublishStep>(fiber: &mut Fiber, cleanup: Cleanup, step: &mut S) -> (r: Result<DisposableToken, GatedPublishError>)
    requires
        old(fiber).disposables.wf(),
        old(fiber).disposables.can_push(),
        old(step).ready(),
    ensures
        gated_outcome(*old(fiber), *final(fiber), cleanup, *old(step), *final(step), r),
{
    if !fiber.can_register() {
        return Err(GatedPublishError::InactiveContext);
    }
    match step.publish() {
        Ok(()) => {},
        Err(_) => {
            return Err(GatedPublishError::PublishRefused);
        },
    }
    let token = fiber.disposables.push(cleanup);
    Ok(token)
}

} // verus!
