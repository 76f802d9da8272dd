//! Admission of digest runs: one run at a time, in order of arrival.

use vstd::prelude::*;

verus! {

/// A ticket queue. Each caller takes a ticket; the holder of the ticket
/// being served may begin once no run is in flight, and finishing a run
/// serves the next ticket.
pub struct RunQueue {
    /// The ticket that the next caller gets.
    pub next_ticket: u64,
    /// The ticket whose holder runs now, or runs next.
    pub serving: u64,
    /// Whether a run is in flight.
    pub running: bool,
}

impl RunQueue {
    pub open spec fn wf(&self) -> bool {
        &&& self.serving <= self.next_ticket
        &&& self.running ==> self.serving < self.next_ticket
    }

    /// Whether the holder of `ticket` may begin its run now.
    pub open spec fn may_begin(&self, ticket: u64) -> bool {
        !self.running && ticket == self.serving && ticket < self.next_ticket
    }

    /// The queue once the run in flight has finished.
    pub open spec fn finished(&self) -> RunQueue {
        RunQueue { next_ticket: self.next_ticket, serving: (self.serving + 1) as u64, running: false }
    }

    /// An empty queue.
    pub fn new() -> (r: RunQueue)
        ensures
            r.wf(),
            r.next_ticket == 0,
            r.serving == 0,
            !r.running,
    {
        RunQueue { next_ticket: 0, serving: 0, running: false }
    }

    /// Hands out the next ticket; `None` once every ticket has been given.
    pub fn take_ticket(&mut self) -> (r: Option<u64>)
        requires
            old(self).wf(),
        ensures
            final(self).wf(),
            old(self).next_ticket < u64::MAX ==> r == Some(old(self).next_ticket) && final(self).next_ticket
                == old(self).next_ticket + 1,
            old(self).next_ticket == u64::MAX ==> r is None && *final(self) == *old(self),
            final(self).serving == old(self).serving,
            final(self).running == old(self).running,
    {
        if self.next_ticket < u64::MAX {
            let t = self.next_ticket;
            self.next_ticket = t + 1;
            Some(t)
        } else {
            None
        }
    }

    /// Lets the holder of `ticket` begin its run, if its turn has come and
    /// no run is in flight; otherwise changes nothing.
    pub fn try_begin(&mut self, ticket: u64) -> (r: bool)
        requires
            old(self).wf(),
        ensures
            final(self).wf(),
            r == old(self).may_begin(ticket),
            r ==> final(self).running && final(self).serving == old(self).serving && final(self).next_ticket
                == old(self).next_ticket,
            !r ==> *final(self) == *old(self),
    {
        if !self.running && ticket == self.serving && ticket < self.next_ticket {
            self.running = true;
            true
        } else {
            false
        }
    }

    /// Ends the run in flight and serves the next ticket.
    pub fn finish(&mut self)
        requires
            old(self).wf(),
            old(self).running,
        ensures
            final(self).wf(),
            *final(self) == old(self).finished(),
    {
        self.running = false;
        self.serving = self.serving + 1;
    }
}

/// While a run is in flight no other may begin; once it has finished, only
/// the holder of the next ticket may begin. So runs never overlap, and each
/// begins only after the one before it has finished.
pub proof fn lemma_runs_in_turn(q: RunQueue, t: u64)
    requires
        q.wf(),
        q.running,
    ensures
        !q.may_begin(t),
        q.finished().wf(),
        q.finished().may_begin(t) ==> t == q.serving + 1,
{
}

} // verus!
