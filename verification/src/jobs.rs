//! Counting the jobs that are handed to worker threads, to tell when all of them are done.

use vstd::prelude::*;

verus! {

/// What happens to a job.
pub enum JobEvent {
    Start,
    Finish,
}

/// The number of events that start a job.
pub open spec fn starts(events: Seq<JobEvent>) -> int {
    events.filter(|e: JobEvent| e is Start).len() as int
}

/// The number of events that finish a job.
pub open spec fn finishes(events: Seq<JobEvent>) -> int {
    events.filter(|e: JobEvent| e is Finish).len() as int
}

/// One more event adds one to the events of its kind and nothing to those of the other.
pub proof fn lemma_event_counted(events: Seq<JobEvent>, event: JobEvent)
    ensures
        starts(events.push(event)) == starts(events) + if event is Start {
            1int
        } else {
            0int
        },
        finishes(events.push(event)) == finishes(events) + if event is Finish {
            1int
        } else {
            0int
        },
{
    reveal(Seq::filter);
    assert(events.push(event).drop_last() =~= events);
}

/// Whether a history can come about: no job finishes that was not started before.
pub open spec fn is_history(events: Seq<JobEvent>) -> bool {
    forall|n: int|
        0 <= n <= events.len() ==> finishes(#[trigger] events.take(n)) <= starts(events.take(n))
}

proof fn lemma_history_grows(events: Seq<JobEvent>, event: JobEvent)
    requires
        is_history(events),
        event is Finish ==> finishes(events) < starts(events),
    ensures
        is_history(events.push(event)),
{
    let more = events.push(event);
    lemma_event_counted(events, event);
    assert(events.take(events.len() as int) =~= events);
    assert forall|n: int| 0 <= n <= more.len() implies finishes(#[trigger] more.take(n)) <= starts(
        more.take(n),
    ) by {
        if n <= events.len() {
            assert(more.take(n) =~= events.take(n));
        } else {
            assert(more.take(n) =~= more);
        }
    }
}

/// The number of jobs that were started and are not finished.
pub struct PendingJobs {
    count: usize,
    history: Ghost<Seq<JobEvent>>,
}

impl View for PendingJobs {
    type V = Seq<JobEvent>;

    /// What happened to the jobs so far, in order.
    closed spec fn view(&self) -> Seq<JobEvent> {
        self.history@
    }
}

impl PendingJobs {
    #[verifier::type_invariant]
    spec fn counts_history(self) -> bool {
        &&& self.count == starts(self.history@) - finishes(self.history@)
        &&& is_history(self.history@)
    }

    /// The number of jobs that were started and are not finished.
    pub open spec fn pending(&self) -> int {
        starts(self@) - finishes(self@)
    }

    /// No jobs yet.
    pub fn new() -> (r: Self)
        ensures
            r@ == Seq::<JobEvent>::empty(),
            r.pending() == 0,
            is_history(r@),
    {
        proof {
            reveal(Seq::filter);
        }
        PendingJobs { count: 0, history: Ghost(Seq::empty()) }
    }

    /// The number of jobs that were started and are not finished.
    pub fn outstanding(&self) -> (r: usize)
        ensures
            r == self.pending(),
    {
        proof {
            use_type_invariant(self);
        }
        self.count
    }

    /// Whether nothing is left to wait for: as many jobs have finished as were started.
    pub fn is_idle(&self) -> (r: bool)
        ensures
            r <==> starts(self@) == finishes(self@),
    {
        proof {
            use_type_invariant(self);
        }
        self.count == 0
    }

    /// Counts a job, before it is handed to a worker.
    pub fn start(&mut self)
        requires
            old(self).pending() < usize::MAX,
        ensures
            final(self)@ == old(self)@.push(JobEvent::Start),
            final(self).pending() == old(self).pending() + 1,
            is_history(final(self)@),
    {
        proof {
            use_type_invariant(&*self);
            lemma_event_counted(self@, JobEvent::Start);
            lemma_history_grows(self@, JobEvent::Start);
        }
        *self = PendingJobs {
            count: self.count + 1,
            history: Ghost(self.history@.push(JobEvent::Start)),
        };
    }

    /// Takes a finished job off, and tells whether those who wait are to be woken: when as many
    /// jobs have finished as were started, and not before.
    pub fn finish(&mut self) -> (wake: bool)
        requires
            old(self).pending() > 0,
        ensures
            final(self)@ == old(self)@.push(JobEvent::Finish),
            final(self).pending() == old(self).pending() - 1,
            is_history(final(self)@),
            wake <==> starts(final(self)@) == finishes(final(self)@),
    {
        proof {
            use_type_invariant(&*self);
            lemma_event_counted(self@, JobEvent::Finish);
            lemma_history_grows(self@, JobEvent::Finish);
        }
        *self = PendingJobs {
            count: self.count - 1,
            history: Ghost(self.history@.push(JobEvent::Finish)),
        };
        self.count == 0
    }
}

/// Waiting ends when all work is done: once as many jobs have finished as were started, the last
/// thing that happened was that a job finished, and it left none behind.
pub proof fn lemma_last_job_wakes(events: Seq<JobEvent>)
    requires
        is_history(events),
        events.len() > 0,
        starts(events) == finishes(events),
    ensures
        events.last() is Finish,
        starts(events.drop_last()) == finishes(events.drop_last()) + 1,
{
    let before = events.drop_last();
    lemma_event_counted(before, events.last());
    assert(before.push(events.last()) =~= events);
    assert(before =~= events.take(events.len() - 1));
}

} // verus!
