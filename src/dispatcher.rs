//! The dispatcher: many callers share one client through a bounded FIFO
//! queue. Calls are started one at a time, in the order they were accepted,
//! and each result goes back through the responder of the call it belongs
//! to.
//!
//! Calls are numbered in the order they are accepted, from 0. The number of
//! calls accepted, started and finished so far are ghost counters; a call
//! has started (finished) when its number is below the started (finished)
//! count.
use vstd::prelude::*;

use crate::command::Command;

verus! {

/// A call waiting for its turn: the command, and where its result goes.
pub struct PendingCall<R> {
    pub command: Command,
    pub responder: R,
}

pub struct Dispatcher<R> {
    queue: Vec<PendingCall<R>>,
    capacity: usize,
    current: Option<R>,
    accepted: Ghost<nat>,
    started: Ghost<nat>,
    finished: Ghost<nat>,
}

impl<R> Dispatcher<R> {
    /// Calls accepted and not started, oldest first.
    pub closed spec fn queued(&self) -> Seq<PendingCall<R>> {
        self.queue@
    }

    pub closed spec fn capacity(&self) -> nat {
        self.capacity as nat
    }

    /// The responder of the call that has started and not finished.
    pub closed spec fn in_flight(&self) -> Option<R> {
        self.current
    }

    pub closed spec fn accepted(&self) -> nat {
        self.accepted@
    }

    pub closed spec fn started(&self) -> nat {
        self.started@
    }

    pub closed spec fn finished(&self) -> nat {
        self.finished@
    }

    pub closed spec fn wf(&self) -> bool {
        &&& 0 < self.capacity
        &&& self.queue@.len() <= self.capacity
        &&& self.accepted@ == self.started@ + self.queue@.len()
        &&& self.started@ == self.finished@ + if self.current is Some {
            1nat
        } else {
            0nat
        }
    }

    /// An idle dispatcher whose queue holds up to `capacity` calls.
    pub fn new(capacity: usize) -> (r: Dispatcher<R>)
        requires
            0 < capacity,
        ensures
            r.wf(),
            r.queued() == Seq::<PendingCall<R>>::empty(),
            r.capacity() == capacity,
            r.in_flight() is None,
            r.accepted() == 0,
    {
        Dispatcher {
            queue: Vec::new(),
            capacity,
            current: None,
            accepted: Ghost(0),
            started: Ghost(0),
            finished: Ghost(0),
        }
    }

    /// Number of calls waiting.
    pub fn waiting(&self) -> (r: usize)
        ensures
            r == self.queued().len(),
    {
        self.queue.len()
    }

    /// Whether a call has started and not finished.
    pub fn is_busy(&self) -> (r: bool)
        ensures
            r == self.in_flight() is Some,
    {
        self.current.is_some()
    }

    /// Queues a call at the back. When the queue is full the call is handed
    /// back and nothing changes. An accepted call gets the number
    /// `old(self).accepted()`.
    pub fn submit(&mut self, call: PendingCall<R>) -> (r: Result<(), PendingCall<R>>)
        requires
            old(self).wf(),
        ensures
            final(self).wf(),
            r is Ok <==> old(self).queued().len() < old(self).capacity(),
            r is Ok ==> final(self).queued() == old(self).queued().push(call) && final(self).accepted()
                == old(self).accepted() + 1,
            r matches Err(c) ==> c == call && *final(self) == *old(self),
            final(self).capacity() == old(self).capacity(),
            final(self).in_flight() == old(self).in_flight(),
            final(self).started() == old(self).started(),
            final(self).finished() == old(self).finished(),
    {
        if self.queue.len() >= self.capacity {
            return Err(call);
        }
        self.queue.push(call);
        self.accepted = Ghost(self.accepted@ + 1);
        Ok(())
    }

    /// Starts the oldest waiting call, when no call is in flight: its
    /// responder is kept until `finish`, and its command is returned to be
    /// run. The call started is number `old(self).started()`, and every call
    /// accepted before it has finished.
    pub fn start(&mut self) -> (r: Option<Command>)
        requires
            old(self).wf(),
        ensures
            final(self).wf(),
            r is Some <==> old(self).in_flight() is None && old(self).queued().len() > 0,
            r matches Some(c) ==> {
                &&& c == old(self).queued()[0].command
                &&& final(self).queued() == old(self).queued().drop_first()
                &&& final(self).in_flight() == Some(old(self).queued()[0].responder)
                &&& final(self).started() == old(self).started() + 1
                &&& old(self).finished() == old(self).started()
            },
            r is None ==> *final(self) == *old(self),
            final(self).capacity() == old(self).capacity(),
            final(self).accepted() == old(self).accepted(),
            final(self).finished() == old(self).finished(),
    {
        if self.current.is_some() || self.queue.len() == 0 {
            return None;
        }
        let call = self.queue.remove(0);
        self.current = Some(call.responder);
        self.started = Ghost(self.started@ + 1);
        proof {
            assert(self.queue@ =~= old(self).queue@.drop_first());
        }
        Some(call.command)
    }

    /// Ends the call in flight and hands back its responder, through which
    /// its result is to be delivered.
    pub fn finish(&mut self) -> (r: Option<R>)
        requires
            old(self).wf(),
        ensures
            final(self).wf(),
            r == old(self).in_flight(),
            final(self).in_flight() is None,
            final(self).finished() == old(self).finished() + if r is Some {
                1nat
            } else {
                0nat
            },
            final(self).queued() == old(self).queued(),
            final(self).capacity() == old(self).capacity(),
            final(self).accepted() == old(self).accepted(),
            final(self).started() == old(self).started(),
    {
        let r = self.current.take();
        if r.is_some() {
            self.finished = Ghost(self.finished@ + 1);
        }
        r
    }

    /// Calls start in the order they were accepted, and one starts only
    /// after the one accepted before it has finished: of two calls, when
    /// the later one has started, the earlier one has finished.
    pub proof fn lemma_fifo(&self, earlier: nat, later: nat)
        requires
            self.wf(),
            earlier < later,
            later < self.started(),
        ensures
            earlier < self.finished(),
    {
    }

    /// The waiting call at position `i` has number `started() + i`.
    pub proof fn lemma_queue_numbers(&self)
        requires
            self.wf(),
        ensures
            self.accepted() == self.started() + self.queued().len(),
            self.finished() <= self.started() <= self.finished() + 1,
            self.in_flight() is None <==> self.started() == self.finished(),
    {
    }
}

} // verus!
