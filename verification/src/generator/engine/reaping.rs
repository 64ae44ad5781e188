//! How requests leave.
use vstd::prelude::*;
use crate::generator::batch::states;
use crate::generator::engine::{lemma_runs_frame, runs, waits, Effect, GenState, Generator, SpecKind};
use crate::generator::job::{requeued, Job, JobState};
use crate::paged::{released, Table};

verus! {

/// The generator after a job's pages and its slot came back, and what the device does. The job
/// is no longer among the running ones.
pub open spec fn freed_job(g: GenState, s: JobState) -> (GenState, Seq<Effect>) {
    let p = released(released(g.table.pages, s.block), s.neg_block);
    let h = GenState {
        table: Table { pages: p, ..g.table },
        draft: if s.draft_block.len() > 0 && g.spec == SpecKind::Draft {
            Some(Table { pages: released(g.draft->0.pages, s.draft_block), ..g.draft->0 })
        } else {
            g.draft
        },
        ..g
    };
    if s.slot >= 0 {
        (
            GenState { slots_free: g.slots_free.push(s.slot), ..h },
            if g.spec == SpecKind::DFlash2 {
                seq![Effect::DropWindow { slot: s.slot }]
            } else {
                seq![]
            },
        )
    } else {
        (h, seq![])
    }
}

/// The generator after the running jobs from `i` on that are done left, and those to be queued
/// again stand at the head of the queue; and what the device does.
pub open spec fn reaped_from(g: GenState, i: int) -> (GenState, Seq<Effect>)
    decreases g.active.len() - i,
{
    if i < 0 || i >= g.active.len() {
        (g, seq![])
    } else {
        let s = g.active[i];
        if s.done || s.requeue_pending {
            let (h, fx) = freed_job(GenState { active: g.active.remove(i), ..g }, s);
            let k = if s.done {
                h
            } else {
                GenState { queue: seq![requeued(s)] + h.queue, ..h }
            };
            let (rest, more) = reaped_from(k, i);
            (rest, fx + more)
        } else {
            reaped_from(g, i + 1)
        }
    }
}

impl Generator {
    fn release_job(&mut self, job: &Job, effects: &mut Vec<Effect>)
        requires
            old(self).inv(),
            runs(old(self).state(), job@),
        ensures
            final(self).inv(),
            ({
                let (h, fx) = freed_job(old(self).state(), job@);
                final(self).state() == h && final(effects)@ == old(effects)@ + fx
            }),
            final(self).queue == old(self).queue,
            final(self).active == old(self).active,
    {
        let ghost g = self.state();
        let ghost s = job@;
        let ghost fx0 = effects@;
        self.pages.release(job.block.as_slice());
        self.pages.release(job.neg_block.as_slice());
        if job.draft_block.len() > 0 && self.spec == SpecKind::Draft {
            match &mut self.draft_pages {
                Some(t) => {
                    t.release(job.draft_block.as_slice());
                },
                None => {},
            }
        }
        if job.slot >= 0 {
            if self.spec == SpecKind::DFlash2 {
                effects.push(Effect::DropWindow { slot: job.slot });
            }
            self.slots_free.push(job.slot);
        }
        proof {
            let (h, fx) = freed_job(g, s);
            assert(effects@ =~= fx0 + fx);
            assert(self.state() =~= h);
            assert forall|i: int| 0 <= i < h.active.len() implies runs(h, #[trigger] h.active[i]) by {
                assert(runs(g, g.active[i]));
            }
        }
    }

    /// Take the jobs that are done out, and queue those again, first, that have had their share.
    pub fn reap(&mut self) -> (r: Vec<Effect>)
        requires
            old(self).inv(),
        ensures
            final(self).inv(),
            (final(self).state(), r@) == reaped_from(old(self).state(), 0),
    {
        let ghost want = reaped_from(self.state(), 0);
        let mut effects: Vec<Effect> = Vec::new();
        let mut i: usize = 0;
        proof {
            assert(effects@ + want.1 =~= want.1);
        }
        while i < self.active.len()
            invariant
                i <= self.active@.len(),
                self.inv(),
                reaped_from(self.state(), i as int).0 == want.0,
                effects@ + reaped_from(self.state(), i as int).1 == want.1,
            decreases self.active@.len() - i,
        {
            let ghost g = self.state();
            let ghost s = g.active[i as int];
            assert(runs(g, s));
            assert(self.active@[i as int]@ == s);
            let done = self.active[i].done;
            if done || self.active[i].requeue_pending {
                let ghost act = self.active@;
                let ghost q = self.queue@;
                let mut job = self.active.remove(i);
                let ghost g1 = self.state();
                proof {
                    assert(act[i as int].parts_ok());
                    assert(states(self.active@) =~= g.active.remove(i as int));
                    assert(g1 =~= (GenState { active: g.active.remove(i as int), ..g }));
                    assert forall|k: int| 0 <= k < g1.active.len() implies runs(g1, #[trigger] g1.active[k]) by {
                        let m = if k < i {
                            k
                        } else {
                            k + 1
                        };
                        assert(runs(g, g.active[m]));
                    }
                    assert forall|k: int| 0 <= k < self.active@.len() implies (#[trigger] self.active@[k]).parts_ok() by {
                        let m = if k < i {
                            k
                        } else {
                            k + 1
                        };
                        assert(act[m].parts_ok());
                    }
                }
                let ghost fx0 = effects@;
                self.release_job(&job, &mut effects);
                let ghost h = self.state();
                let ghost fx = freed_job(g1, s).1;
                if !done {
                    job.fold();
                    let ghost t = job@;
                    self.queue.insert(0, job);
                    proof {
                        assert(states(self.queue@) =~= seq![t] + h.queue);
                        assert(self.state() =~= (GenState { queue: seq![requeued(s)] + h.queue, ..h }));
                        let k = self.state();
                        assert(waits(t));
                        assert forall|m: int| 0 <= m < k.queue.len() implies waits(#[trigger] k.queue[m]) by {
                            if m > 0 {
                                assert(waits(h.queue[m - 1]));
                            }
                        }
                        assert forall|m: int| 0 <= m < self.queue@.len() implies (#[trigger] self.queue@[m]).parts_ok() by {
                            if m > 0 {
                                assert(q[m - 1].parts_ok());
                            }
                        }
                        lemma_runs_frame(h, k);
                    }
                }
                proof {
                    let more = reaped_from(self.state(), i as int).1;
                    assert(fx0 + (fx + more) =~= effects@ + more);
                }
            } else {
                i = i + 1;
            }
        }
        proof {
            assert(effects@ + Seq::<Effect>::empty() =~= effects@);
        }
        effects
    }
}

} // verus!
