//! The order in which background work runs: higher priority first, and
//! first come, first served within a priority.
use vstd::prelude::*;

verus! {

/// How urgent a task is; a later variant runs first.
#[derive(Debug, Clone, Copy, PartialEq, Eq, Structural)]
pub enum Priority {
    Preload,
    Preview,
    Visible,
}

/// The rank of a priority: higher runs first.
pub open spec fn urgency(p: Priority) -> int {
    match p {
        Priority::Preload => 0,
        Priority::Preview => 1,
        Priority::Visible => 2,
    }
}

impl Priority {
    /// The rank of this priority: higher runs first.
    pub fn rank(&self) -> (r: u8)
        ensures
            r as int == urgency(*self),
    {
        match self {
            Priority::Preload => 0,
            Priority::Preview => 1,
            Priority::Visible => 2,
        }
    }
}

/// A queued job `a` runs before a queued job `b`: it is more urgent, or as
/// urgent and queued earlier.
pub open spec fn runs_before<T>(a: (Priority, u64, T), b: (Priority, u64, T)) -> bool {
    urgency(a.0) > urgency(b.0) || (urgency(a.0) == urgency(b.0) && a.1 < b.1)
}

/// No two queued jobs share a sequence number.
pub open spec fn seqs_distinct<T>(v: Seq<(Priority, u64, T)>) -> bool {
    forall|i: int, j: int| 0 <= i < v.len() && 0 <= j < v.len() && i != j ==> #[trigger] v[i].1 != #[trigger] v[j].1
}

/// Every queued job has a sequence number below `next`.
pub open spec fn seqs_below<T>(v: Seq<(Priority, u64, T)>, next: u64) -> bool {
    forall|i: int| 0 <= i < v.len() ==> #[trigger] v[i].1 < next
}

/// Jobs waiting to run, each with its priority and the sequence number it
/// was queued under.
pub struct JobQueue<T> {
    jobs: Vec<(Priority, u64, T)>,
    next_seq: u64,
}

impl<T> JobQueue<T> {
    #[verifier::type_invariant]
    spec fn wf(self) -> bool {
        &&& forall|i: int| 0 <= i < self.jobs.len() ==> #[trigger] self.jobs[i].1 < self.next_seq
        &&& forall|i: int, j: int|
            0 <= i < j < self.jobs.len() ==> #[trigger] self.jobs[i].1 != #[trigger] self.jobs[j].1
    }

    /// The waiting jobs, in the order they were queued.
    pub closed spec fn view(self) -> Seq<(Priority, u64, T)> {
        self.jobs@
    }

    /// The sequence number the next job gets.
    pub closed spec fn next(self) -> u64 {
        self.next_seq
    }

    /// An empty queue; the first job gets sequence number 0.
    pub fn new() -> (q: Self)
        ensures
            q.view() == Seq::<(Priority, u64, T)>::empty(),
            q.next() == 0,
            seqs_distinct(q.view()),
            seqs_below(q.view(), q.next()),
    {
        JobQueue { jobs: Vec::new(), next_seq: 0 }
    }

    /// Whether another job can be numbered.
    pub fn can_push(&self) -> (r: bool)
        ensures
            r == (self.next() < u64::MAX),
    {
        self.next_seq < u64::MAX
    }

    /// The number of waiting jobs.
    pub fn len(&self) -> (n: usize)
        ensures
            n == self.view().len(),
    {
        self.jobs.len()
    }

    /// Queues `job` at `priority` under the next sequence number, which it
    /// returns.
    pub fn push(&mut self, priority: Priority, job: T) -> (seq: u64)
        requires
            old(self).next() < u64::MAX,
        ensures
            seq == old(self).next(),
            final(self).next() == old(self).next() + 1,
            final(self).view() == old(self).view().push((priority, seq, job)),
            seqs_distinct(final(self).view()),
            seqs_below(final(self).view(), final(self).next()),
    {
        proof {
            use_type_invariant(&*self);
        }
        let seq = self.next_seq;
        let mut jobs: Vec<(Priority, u64, T)> = Vec::new();
        std::mem::swap(&mut jobs, &mut self.jobs);
        self.next_seq = seq + 1;
        let ghost before = jobs@;
        jobs.push((priority, seq, job));
        proof {
            assert forall|i: int, j: int| 0 <= i < j < jobs.len() implies #[trigger] jobs@[i].1 != #[trigger] jobs@[j].1 by {
                if j < before.len() {
                    assert(before[i].1 != before[j].1);
                } else {
                    assert(before[i].1 < seq);
                }
            }
        }
        self.jobs = jobs;
        seq
    }

    /// Takes out the job that runs next: the most urgent, and of those the
    /// earliest queued. None when the queue is empty.
    pub fn pop(&mut self) -> (r: Option<T>)
        ensures
            old(self).view().len() == 0 ==> r is None && final(self).view() == old(self).view(),
            old(self).view().len() > 0 ==> exists|i: int|
                0 <= i < old(self).view().len() && (forall|j: int|
                    0 <= j < old(self).view().len() && j != i ==> runs_before(
                        old(self).view()[i],
                        #[trigger] old(self).view()[j],
                    )) && r == Some(old(self).view()[i].2) && final(self).view() == old(self).view().remove(i),
            final(self).next() == old(self).next(),
            seqs_distinct(final(self).view()),
            seqs_below(final(self).view(), final(self).next()),
    {
        proof {
            use_type_invariant(&*self);
        }
        let n = self.jobs.len();
        if n == 0 {
            return None;
        }
        let mut best: usize = 0;
        let mut k: usize = 1;
        while k < n
            invariant
                n == self.jobs.len(),
                best < k <= n,
                forall|j: int|
                    0 <= j < k && j != best ==> runs_before(self.jobs@[best as int], #[trigger] self.jobs@[j]),
                forall|i: int, j: int|
                    0 <= i < j < self.jobs.len() ==> #[trigger] self.jobs@[i].1 != #[trigger] self.jobs@[j].1,
            decreases n - k,
        {
            let (bp, bs) = (self.jobs[best].0.rank(), self.jobs[best].1);
            let (kp, ks) = (self.jobs[k].0.rank(), self.jobs[k].1);
            if kp > bp || (kp == bp && ks < bs) {
                proof {
                    assert forall|j: int| 0 <= j < k + 1 && j != k implies runs_before(self.jobs@[k as int], #[trigger] self.jobs@[j]) by {
                        if j != best {
                            assert(runs_before(self.jobs@[best as int], self.jobs@[j]));
                        }
                    }
                }
                best = k;
            } else {
                proof {
                    assert(self.jobs@[best as int].1 != self.jobs@[k as int].1);
                }
            }
            k += 1;
        }
        let mut jobs: Vec<(Priority, u64, T)> = Vec::new();
        std::mem::swap(&mut jobs, &mut self.jobs);
        let ghost before = jobs@;
        let (_, _, job) = jobs.remove(best);
        proof {
            assert forall|i: int| 0 <= i < jobs.len() implies #[trigger] jobs@[i].1 < self.next_seq by {
                if i < best {
                    assert(jobs@[i] == before[i]);
                } else {
                    assert(jobs@[i] == before[i + 1]);
                }
            }
            assert forall|i: int, j: int| 0 <= i < j < jobs.len() implies #[trigger] jobs@[i].1 != #[trigger] jobs@[j].1 by {
                let a = if i < best { i } else { i + 1 };
                let b = if j < best { j } else { j + 1 };
                assert(jobs@[i] == before[a]);
                assert(jobs@[j] == before[b]);
            }
        }
        self.jobs = jobs;
        Some(job)
    }
}

/// The order of the queue is total: of two different jobs in a queue, one
/// runs before the other, and not the other way round. So the job that runs
/// next is determined.
pub proof fn law_queue_order_is_total<T>(v: Seq<(Priority, u64, T)>, i: int, j: int)
    requires
        seqs_distinct(v),
        0 <= i < v.len(),
        0 <= j < v.len(),
        i != j,
    ensures
        runs_before(v[i], v[j]) != runs_before(v[j], v[i]),
{
    assert(v[i].1 != v[j].1);
}

/// A job queued now runs after every job already waiting at its own
/// priority or a more urgent one, and before every waiting job that is
/// less urgent.
pub proof fn law_new_job_waits_its_turn<T>(v: Seq<(Priority, u64, T)>, next: u64, priority: Priority, job: T)
    requires
        seqs_below(v, next),
    ensures
        forall|i: int|
            0 <= i < v.len() ==> (#[trigger] runs_before(v[i], (priority, next, job)) <==> urgency(v[i].0) >= urgency(
                priority,
            )),
{
    assert forall|i: int| 0 <= i < v.len() implies (#[trigger] runs_before(v[i], (priority, next, job)) <==> urgency(
        v[i].0,
    ) >= urgency(priority)) by {
        assert(v[i].1 < next);
    }
}

} // verus!
