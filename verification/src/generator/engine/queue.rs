//! How requests come in and are taken back.
use vstd::prelude::*;
use vstd::utf8::encode_utf8;
use crate::generator::batch::states;
use crate::generator::engine::{
    lemma_changed_inv, lemma_runs_frame, waits, CacheKind, GenState, Generator, SpecKind,
};
use crate::generator::job::{new_job, EosReason, Job, JobSpec, JobState};

verus! {

/// The jobs but the one with a serial number.
pub open spec fn others(jobs: Seq<JobState>, serial: u64) -> Seq<JobState>
    decreases jobs.len(),
{
    if jobs.len() == 0 {
        seq![]
    } else if jobs.last().serial == serial {
        others(jobs.drop_last(), serial)
    } else {
        others(jobs.drop_last(), serial).push(jobs.last())
    }
}

/// Where the first job with a serial number stands; the length where there is none.
pub open spec fn job_index(jobs: Seq<JobState>, serial: u64) -> int
    decreases jobs.len(),
{
    if jobs.len() == 0 {
        0
    } else {
        let p = job_index(jobs.drop_last(), serial);
        if p < jobs.len() - 1 || jobs.last().serial == serial {
            p
        } else {
            jobs.len() as int
        }
    }
}

proof fn lemma_job_index(jobs: Seq<JobState>, serial: u64)
    ensures
        0 <= job_index(jobs, serial) <= jobs.len(),
        job_index(jobs, serial) < jobs.len() ==> jobs[job_index(jobs, serial)].serial == serial,
        forall|i: int| 0 <= i < job_index(jobs, serial) ==> (#[trigger] jobs[i]).serial != serial,
    decreases jobs.len(),
{
    if jobs.len() > 0 {
        let t = jobs.drop_last();
        lemma_job_index(t, serial);
        let p = job_index(t, serial);
        assert forall|i: int| 0 <= i < p implies (#[trigger] jobs[i]).serial != serial by {
            assert(t[i].serial != serial);
        }
        if p == t.len() && jobs.last().serial != serial {
            assert forall|i: int| 0 <= i < jobs.len() implies (#[trigger] jobs[i]).serial != serial by {
                if i < t.len() {
                    assert(t[i].serial != serial);
                }
            }
        }
    }
}

/// A cancelled job.
pub open spec fn cancelled(s: JobState) -> JobState {
    JobState { done: true, eos_reason: Some(EosReason::Cancelled), ..s }
}

/// The running jobs after one is cancelled.
pub open spec fn with_cancelled(jobs: Seq<JobState>, serial: u64) -> Seq<JobState> {
    let p = job_index(jobs, serial);
    if p < jobs.len() {
        jobs.update(p, cancelled(jobs[p]))
    } else {
        jobs
    }
}

/// Whether jobs can be guided: the cache is not a hybrid one, and nothing drafts.
pub open spec fn guides(g: GenState) -> bool {
    g.cache != CacheKind::Hybrid && g.ngram_match_min == 0 && g.spec == SpecKind::Nothing
}

impl Generator {
    /// Whether jobs can be guided.
    pub fn can_guide(&self) -> (r: bool)
        ensures
            r == guides(self.state()),
    {
        self.cache != CacheKind::Hybrid && self.ngram_match_min == 0 && self.spec == SpecKind::Nothing
    }

    /// Queue a job and return its serial number. `piece` is the text of the last prompt token,
    /// `allowed` the tokens whose texts start with it; they are used where the request asks for
    /// token healing.
    pub fn enqueue(&mut self, spec: JobSpec, piece: String, allowed: Vec<i64>) -> (r: u64)
        requires
            old(self).inv(),
            spec.sensible(),
            old(self).state().next_serial < u64::MAX,
            spec.negative is Some ==> guides(old(self).state()),
        ensures
            final(self).inv(),
            r == old(self).state().next_serial,
            final(self).state() == (GenState {
                next_serial: (old(self).state().next_serial + 1) as u64,
                queue: old(self).state().queue.push(new_job(spec, r, encode_utf8(piece@), allowed@)),
                ..old(self).state()
            }),
    {
        let ghost g = self.state();
        let serial = self.next_serial;
        self.next_serial = serial + 1;
        let job = Job::new(spec, serial, piece, allowed);
        let ghost s = job@;
        let ghost q = self.queue@;
        self.queue.push(job);
        proof {
            assert(states(self.queue@) =~= g.queue.push(s));
            assert(self.state() =~= (GenState { next_serial: (serial + 1) as u64, queue: g.queue.push(s), ..g }));
            assert forall|i: int| 0 <= i < self.state().queue.len() implies waits(#[trigger] self.state().queue[i]) by {
                if i < g.queue.len() {
                    assert(waits(g.queue[i]));
                }
            }
            assert forall|i: int| 0 <= i < self.queue@.len() implies (#[trigger] self.queue@[i]).parts_ok() by {
                if i < q.len() {
                    assert(q[i].parts_ok());
                }
            }
            lemma_runs_frame(g, self.state());
        }
        serial
    }

    /// Abandon a job: a waiting one is dropped, a running one is done.
    pub fn cancel(&mut self, serial: u64)
        requires
            old(self).inv(),
        ensures
            final(self).inv(),
            final(self).state() == (GenState {
                queue: others(old(self).state().queue, serial),
                active: with_cancelled(old(self).state().active, serial),
                ..old(self).state()
            }),
    {
        let ghost g = self.state();
        let mut kept: Vec<Job> = Vec::new();
        let mut queue: Vec<Job> = Vec::new();
        let ghost q = self.queue@;
        std::mem::swap(&mut queue, &mut self.queue);
        proof {
            assert(states(kept@) =~= seq![]);
            assert(q.take(0) =~= seq![]);
            assert(q.skip(0) =~= q);
            assert(states(q.take(0)) =~= seq![]);
            assert forall|i: int| 0 <= i < q.len() implies (#[trigger] q[i]).parts_ok() && waits(q[i]@) by {
                assert(waits(g.queue[i]));
            }
        }
        let mut k: usize = 0;
        let n: usize = queue.len();
        while k < n
            invariant
                k <= n,
                n == q.len(),
                queue@ == q.skip(k as int),
                states(kept@) == others(states(q.take(k as int)), serial),
                forall|i: int| 0 <= i < q.len() ==> (#[trigger] q[i]).parts_ok() && waits(q[i]@),
                forall|i: int| 0 <= i < kept@.len() ==> (#[trigger] kept@[i]).parts_ok() && waits(kept@[i]@),
            decreases n - k,
        {
            let job = queue.remove(0);
            let ghost s0 = states(kept@);
            proof {
                assert(job == q[k as int]);
                assert(queue@ =~= q.skip(k + 1));
                assert(states(q.take(k + 1)).drop_last() =~= states(q.take(k as int)));
                assert(states(q.take(k + 1)).last() == job@);
            }
            if job.serial != serial {
                kept.push(job);
                assert(states(kept@) =~= s0.push(q[k as int]@));
            }
            k = k + 1;
        }
        assert(q.take(k as int) =~= q);
        self.queue = kept;
        let ghost act = self.active@;
        proof {
            lemma_job_index(states(act), serial);
        }
        let mut i: usize = 0;
        while i < self.active.len()
            invariant
                i <= act.len(),
                self.active@ == act,
                i <= job_index(states(act), serial) <= act.len(),
                job_index(states(act), serial) < act.len() ==> states(act)[job_index(states(act), serial)].serial
                    == serial,
                forall|j: int| 0 <= j < job_index(states(act), serial) ==> (#[trigger] states(act)[j]).serial
                    != serial,
                self.state() == (GenState { queue: others(g.queue, serial), ..g }),
                g == old(self).state(),
                g.active == states(act),
                old(self).inv(),
                act == old(self).active@,
                forall|j: int| 0 <= j < self.queue@.len() ==> (#[trigger] self.queue@[j]).parts_ok() && waits(
                    self.queue@[j]@,
                ),
            decreases act.len() - i,
        {
            assert(states(act)[i as int] == act[i as int]@);
            if self.active[i].serial == serial {
                self.active[i].done = true;
                self.active[i].eos_reason = Some(EosReason::Cancelled);
                proof {
                    let p = i as int;
                    assert(self.active@[p]@ =~= cancelled(act[p]@));
                    assert(states(self.active@) =~= states(act).update(p, cancelled(act[p]@)));
                    assert(self.state() =~= (GenState {
                        queue: others(g.queue, serial),
                        active: with_cancelled(g.active, serial),
                        ..g
                    }));
                    lemma_changed_inv(g, self.state(), p);
                    assert forall|j: int| 0 <= j < self.active@.len() implies (#[trigger] self.active@[j]).parts_ok() by {
                        assert(act[j].parts_ok());
                    }
                }
                return;
            }
            i = i + 1;
        }
        proof {
            lemma_runs_frame(g, self.state());
        }
    }
}

} // verus!
