//! The signal system: a per-world event bus with body lifecycle channels
//! (added, removed, activated, deactivated) and collision channels.
//!
//! Every emission is appended to a log, oldest first, so the fan-out a world
//! performed is observable and the alternation discipline of activation
//! events can be stated and proved over the log.

use vstd::prelude::*;

verus! {

#[derive(Clone, Copy, PartialEq, Eq, Structural, Debug)]
pub enum Event {
    BodyAdded { id: usize },
    BodyRemoved { id: usize },
    BodyActivated { id: usize },
    BodyDeactivated { id: usize },
    CollisionStarted { a: usize, b: usize },
    CollisionEnded { a: usize, b: usize },
}

/// Whether an event belongs to the lifecycle of body `id`.
pub open spec fn concerns(e: Event, id: usize) -> bool {
    match e {
        Event::BodyAdded { id: i } => i == id,
        Event::BodyRemoved { id: i } => i == id,
        Event::BodyActivated { id: i } => i == id,
        Event::BodyDeactivated { id: i } => i == id,
        Event::CollisionStarted { .. } => false,
        Event::CollisionEnded { .. } => false,
    }
}

/// The lifecycle position of a body in the eyes of the log.
#[derive(Clone, Copy, PartialEq, Eq, Structural, Debug)]
pub enum LifeState {
    Absent,
    Awake,
    Asleep,
}

/// The lifecycle state of body `id` after all events of `log` fired.
pub open spec fn life_after(log: Seq<Event>, id: usize) -> LifeState
    decreases log.len(),
{
    if log.len() == 0 {
        LifeState::Absent
    } else {
        let prev = life_after(log.drop_last(), id);
        match log.last() {
            Event::BodyAdded { id: i } => if i == id { LifeState::Awake } else { prev },
            Event::BodyRemoved { id: i } => if i == id { LifeState::Absent } else { prev },
            Event::BodyActivated { id: i } => if i == id { LifeState::Awake } else { prev },
            Event::BodyDeactivated { id: i } => if i == id { LifeState::Asleep } else { prev },
            Event::CollisionStarted { .. } => prev,
            Event::CollisionEnded { .. } => prev,
        }
    }
}

/// Every lifecycle event of body `id` fires in a legal state: a body is
/// added only while absent, removed only while present, activated only while
/// asleep, and deactivated only while awake. This is the alternation
/// discipline of the activation channels.
pub open spec fn log_wf_for(log: Seq<Event>, id: usize) -> bool
    decreases log.len(),
{
    if log.len() == 0 {
        true
    } else {
        let pre = log.drop_last();
        log_wf_for(pre, id) && {
            let st = life_after(pre, id);
            match log.last() {
                Event::BodyAdded { id: i } => i == id ==> st is Absent,
                Event::BodyRemoved { id: i } => i == id ==> !(st is Absent),
                Event::BodyActivated { id: i } => i == id ==> st is Asleep,
                Event::BodyDeactivated { id: i } => i == id ==> st is Awake,
                Event::CollisionStarted { .. } => true,
                Event::CollisionEnded { .. } => true,
            }
        }
    }
}

/// The alternation discipline holds for every body.
pub open spec fn log_wf(log: Seq<Event>) -> bool {
    forall|id: usize| #[trigger] log_wf_for(log, id)
}

/// Appending an event that is legal for every body keeps the log
/// well-formed.
pub proof fn lemma_log_wf_push(log: Seq<Event>, e: Event)
    requires
        log_wf(log),
        forall|id: usize| #[trigger] concerns(e, id) ==> match e {
            Event::BodyAdded { .. } => life_after(log, id) is Absent,
            Event::BodyRemoved { .. } => !(life_after(log, id) is Absent),
            Event::BodyActivated { .. } => life_after(log, id) is Asleep,
            Event::BodyDeactivated { .. } => life_after(log, id) is Awake,
            _ => true,
        },
    ensures
        log_wf(log.push(e)),
{
    assert forall|id: usize| #[trigger] log_wf_for(log.push(e), id) by {
        assert(log.push(e).drop_last() =~= log);
        assert(log.push(e).last() == e);
        if concerns(e, id) {
            assert(log_wf_for(log, id));
        }
    }
}

/// An event that does not concern a body leaves its lifecycle state alone,
/// and a lifecycle event drives the state it announces.
pub proof fn lemma_life_after_push(log: Seq<Event>, e: Event, id: usize)
    ensures
        life_after(log.push(e), id) == (if concerns(e, id) {
            match e {
                Event::BodyAdded { .. } => LifeState::Awake,
                Event::BodyRemoved { .. } => LifeState::Absent,
                Event::BodyActivated { .. } => LifeState::Awake,
                Event::BodyDeactivated { .. } => LifeState::Asleep,
                _ => life_after(log, id),
            }
        } else {
            life_after(log, id)
        }),
{
    assert(log.push(e).drop_last() =~= log);
    assert(log.push(e).last() == e);
}

/// The event bus. Handlers register under a stable key; the same key
/// registers once and unregisters once, idempotently. Activation requests
/// queue up until the world honors them.
pub struct SignalEmitter {
    /// Registered activation-handler keys, in registration order.
    pub handlers: Vec<usize>,
    /// Every event emitted through this bus, oldest first.
    pub log: Vec<Event>,
    /// Bodies whose reactivation was requested and is still pending.
    pub pending_activations: Vec<usize>,
}

impl SignalEmitter {
    /// No key registers twice.
    pub open spec fn handlers_wf(self) -> bool {
        forall|i: int, j: int|
            0 <= i < j < self.handlers@.len() ==> self.handlers@[i] != self.handlers@[j]
    }

    pub fn new() -> (r: SignalEmitter)
        ensures
            r.handlers@ =~= Seq::<usize>::empty(),
            r.log@ =~= Seq::<Event>::empty(),
            r.pending_activations@ =~= Seq::<usize>::empty(),
            r.handlers_wf(),
    {
        SignalEmitter { handlers: Vec::new(), log: Vec::new(), pending_activations: Vec::new() }
    }

    pub fn is_registered(&self, key: usize) -> (r: bool)
        ensures
            r == self.handlers@.contains(key),
    {
        let mut i: usize = 0;
        while i < self.handlers.len()
            invariant
                0 <= i <= self.handlers@.len(),
                forall|j: int| 0 <= j < i ==> self.handlers@[j] != key,
            decreases self.handlers@.len() - i,
        {
            if self.handlers[i] == key {
                return true;
            }
            i += 1;
        }
        false
    }

    /// Registers an activation handler key; a second registration under the
    /// same key is a no-op.
    pub fn add_body_activation_handler(&mut self, key: usize)
        requires
            old(self).handlers_wf(),
        ensures
            final(self).handlers_wf(),
            final(self).handlers@ == if old(self).handlers@.contains(key) {
                old(self).handlers@
            } else {
                old(self).handlers@.push(key)
            },
            final(self).log == old(self).log,
            final(self).pending_activations == old(self).pending_activations,
            final(self).handlers@.contains(key),
    {
        if !self.is_registered(key) {
            self.handlers.push(key);
            proof {
                let pre = old(self).handlers@;
                let post = self.handlers@;
                assert forall|i: int, j: int| 0 <= i < j < post.len() implies post[i] != post[j] by {
                    if j == post.len() - 1 {
                        if post[i] == key {
                            assert(pre[i] == key);
                            assert(pre.contains(key));
                        }
                    }
                }
                assert(post.last() == key);
            }
        }
    }

    /// Unregisters a key; removing an absent key is a no-op.
    pub fn remove_body_activation_handler(&mut self, key: usize)
        requires
            old(self).handlers_wf(),
        ensures
            final(self).handlers_wf(),
            !final(self).handlers@.contains(key),
            forall|k: usize|
                k != key ==> (final(self).handlers@.contains(k) == old(
                    self,
                ).handlers@.contains(k)),
            final(self).log == old(self).log,
            final(self).pending_activations == old(self).pending_activations,
    {
        let ghost pre = old(self).handlers@;
        let mut i: usize = 0;
        while i < self.handlers.len()
            invariant
                0 <= i <= self.handlers@.len(),
                pre == old(self).handlers@,
                self.handlers@ == pre,
                old(self).handlers_wf(),
                self.log == old(self).log,
                self.pending_activations == old(self).pending_activations,
                forall|j: int| 0 <= j < i ==> pre[j] != key,
            decreases self.handlers@.len() - i,
        {
            if self.handlers[i] == key {
                proof {
                    assert(pre[i as int] == key);
                }
                self.handlers.remove(i);
                proof {
                    let post = self.handlers@;
                    assert(forall|a: int, b: int|
                        0 <= a < b < pre.len() ==> pre[a] != pre[b]) by {
                        assert(old(self).handlers_wf());
                    }
                    assert(post =~= pre.subrange(0, i as int) + pre.subrange(
                        i + 1,
                        pre.len() as int,
                    ));
                    assert forall|k: usize| post.contains(k) implies pre.contains(k) by {
                        let w = choose|w: int| 0 <= w < post.len() && post[w] == k;
                        if w < i {
                            assert(pre[w] == k);
                        } else {
                            assert(pre[w + 1] == k);
                        }
                    }
                    assert forall|w: int| 0 <= w < post.len() implies post[w] != key by {
                        let pw: int = if w < i { w } else { w + 1 };
                        assert(post[w] == pre[pw]);
                        if pw < i {
                            assert(pre[pw] != pre[i as int]);
                        } else {
                            assert(pre[i as int] != pre[pw]);
                        }
                    }
                    assert(!post.contains(key));
                    assert forall|ii: int, jj: int|
                        0 <= ii < jj < post.len() implies post[ii] != post[jj] by {
                        let pi: int = if ii < i { ii } else { ii + 1 };
                        let pj: int = if jj < i { jj } else { jj + 1 };
                        assert(post[ii] == pre[pi] && post[jj] == pre[pj]);
                        assert(pre[pi] != pre[pj]);
                    }
                    assert forall|k: usize| k != key && pre.contains(k) implies post.contains(k) by {
                        let w = choose|w: int| 0 <= w < pre.len() && pre[w] == k;
                        if w < i {
                            assert(post[w] == k);
                        } else {
                            assert(w > i);
                            assert(post[w - 1] == k);
                        }
                    }
                }
                return;
            }
            i += 1;
        }
        proof {
            assert(forall|j: int| 0 <= j < pre.len() ==> pre[j] != key);
        }
    }

    /// Queues a reactivation request for the world to honor.
    pub fn request_body_activation(&mut self, id: usize)
        ensures
            final(self).pending_activations@ == old(self).pending_activations@.push(id),
            final(self).log == old(self).log,
            final(self).handlers == old(self).handlers,
    {
        self.pending_activations.push(id);
    }

    /// Hands the queued reactivation requests over and clears the queue.
    pub fn take_pending_activations(&mut self) -> (r: Vec<usize>)
        ensures
            r == old(self).pending_activations,
            final(self).pending_activations@ =~= Seq::<usize>::empty(),
            final(self).log == old(self).log,
            final(self).handlers == old(self).handlers,
    {
        let mut out: Vec<usize> = Vec::new();
        core::mem::swap(&mut out, &mut self.pending_activations);
        out
    }

    pub fn emit(&mut self, e: Event)
        ensures
            final(self).log@ == old(self).log@.push(e),
            final(self).handlers == old(self).handlers,
            final(self).pending_activations == old(self).pending_activations,
    {
        self.log.push(e);
    }
}

} // verus!
