//! The steps of the running requests: chunks of their prompts, and tokens.
use vstd::prelude::*;
use crate::generator::batch::states;
use crate::generator::engine::{
    holds, lemma_changed_inv, lemma_runs_frame, pools_ok, runs, waits, GenState, Generator,
};
use crate::generator::job::{
    finished, hits_of, prefilled, told_next, told_plain, windows_of, with_token, Heard, Hits, JobState, Stage,
    StreamEvent, Windows,
};

verus! {

/// Up to where the next chunk of a prompt is ingested: no more than `max_chunk` tokens, not the
/// last token of the prompt, and up to a page boundary where there is one ahead.
pub open spec fn chunk_end(start: int, prompt_len: int, max_chunk: int) -> int {
    let end = if start + max_chunk <= prompt_len - 1 {
        start + max_chunk
    } else {
        prompt_len - 1
    };
    let aligned = end / 256 * 256;
    if aligned > start {
        aligned
    } else {
        end
    }
}

/// A chunk goes forward, never past the last token but one, takes no more than asked, and
/// ends on a page boundary, or at the end of the prompt less than a page ahead.
pub proof fn chunks_go_forward(start: int, prompt_len: int, max_chunk: int)
    requires
        0 <= start < prompt_len - 1,
        max_chunk >= 256,
    ensures
        start < chunk_end(start, prompt_len, max_chunk) <= prompt_len - 1,
        chunk_end(start, prompt_len, max_chunk) - start <= max_chunk,
        chunk_end(start, prompt_len, max_chunk) % 256 == 0 || (chunk_end(start, prompt_len, max_chunk) == prompt_len
            - 1 && chunk_end(start, prompt_len, max_chunk) - start < 256),
{
}

/// Whether a job decodes a token next.
pub open spec fn decodes(s: JobState) -> bool {
    prefilled(s) && !s.done
}

/// The rows, among the first `n` jobs, that decode without guidance.
pub open spec fn plain_rows(jobs: Seq<JobState>, n: nat) -> Seq<usize>
    decreases n,
{
    if n == 0 {
        seq![]
    } else if decodes(jobs[n - 1]) && jobs[n - 1].neg_seq is None {
        plain_rows(jobs, (n - 1) as nat).push((n - 1) as usize)
    } else {
        plain_rows(jobs, (n - 1) as nat)
    }
}

/// The rows, among the first `n` jobs, that decode with guidance.
pub open spec fn guided_rows(jobs: Seq<JobState>, n: nat) -> Seq<usize>
    decreases n,
{
    if n == 0 {
        seq![]
    } else if decodes(jobs[n - 1]) && jobs[n - 1].neg_seq is Some {
        guided_rows(jobs, (n - 1) as nat).push((n - 1) as usize)
    } else {
        guided_rows(jobs, (n - 1) as nat)
    }
}

/// A generator in which job `j` has a new token, and its event is to come.
pub open spec fn gen_mid(g: GenState, j: int, h: Hits) -> bool {
    &&& 0 <= j < g.active.len()
    &&& told_next(g.active[j], h)
    &&& holds(g, g.active[j])
    &&& pools_ok(g)
    &&& forall|i: int| 0 <= i < g.queue.len() ==> waits(#[trigger] g.queue[i])
    &&& forall|i: int| 0 <= i < g.active.len() && i != j ==> runs(g, #[trigger] g.active[i])
}

/// The generator with job `j` changed.
pub open spec fn with_job(g: GenState, j: int, s: JobState) -> GenState {
    GenState { active: g.active.update(j, s), ..g }
}

impl Generator {
    /// The next chunk of the prompt of job `j` that is to be ingested.
    pub fn next_chunk(&self, j: usize) -> (r: Option<(i64, i64)>)
        requires
            self.inv(),
            j < self.state().active.len(),
        ensures
            ({
                let s = self.state().active[j as int];
                match r {
                    Some((start, end)) => !prefilled(s) && start == s.kv_pos && end == chunk_end(
                        s.kv_pos as int,
                        s.prompt_len as int,
                        self.state().max_chunk as int,
                    ),
                    None => prefilled(s),
                }
            }),
    {
        assert(runs(self.state(), self.state().active[j as int]));
        let job = &self.active[j];
        let start = job.kv_pos;
        let last: i64 = job.prompt_len - 1;
        if start >= last {
            return None;
        }
        let mut end: i64 = if self.max_chunk <= last - start {
            start + self.max_chunk
        } else {
            last
        };
        let aligned: i64 = end / 256 * 256;
        if aligned > start {
            end = aligned;
        }
        Some((start, end))
    }

    /// The chunk of job `j` up to `end` is in the cache.
    pub fn chunk_done(&mut self, j: usize, end: i64) -> (r: StreamEvent)
        requires
            old(self).inv(),
            j < old(self).state().active.len(),
            !prefilled(old(self).state().active[j as int]),
            old(self).state().active[j as int].kv_pos < end < old(self).state().active[j as int].prompt_len,
        ensures
            final(self).inv(),
            ({
                let g = old(self).state();
                let s = g.active[j as int];
                &&& final(self).state() == with_job(g, j as int, JobState { kv_pos: end, ..s })
                &&& r.told() == told_plain(s.serial, Stage::Prefill { done: end, total: s.prompt_len })
            }),
    {
        let ghost g = self.state();
        let ghost act = self.active@;
        assert(runs(g, g.active[j as int]));
        self.active[j].kv_pos = end;
        proof {
            let s = JobState { kv_pos: end, ..g.active[j as int] };
            assert(self.active@[j as int]@ =~= s);
            self.lemma_one_changed(*old(self), j as int);
        }
        let total = self.active[j].prompt_len;
        StreamEvent::plain(self.active[j].serial, Stage::Prefill { done: end, total })
    }

    /// The invariant where one running job changed.
    pub(super) proof fn lemma_one_changed(&self, before: Generator, j: int)
        requires
            before.inv(),
            0 <= j < before.active@.len(),
            self.active@.len() == before.active@.len(),
            forall|i: int| 0 <= i < before.active@.len() && i != j ==> #[trigger] self.active@[i] == before.active@[i],
            self.queue == before.queue,
            self.state() == (GenState { active: self.state().active, ..before.state() }),
            runs(before.state(), self.active@[j]@),
            self.active@[j].parts_ok(),
        ensures
            self.inv(),
            self.state() == with_job(before.state(), j, self.active@[j]@),
    {
        let g = before.state();
        let h = self.state();
        assert(h.active =~= g.active.update(j, self.active@[j]@)) by {
            assert forall|i: int| 0 <= i < g.active.len() && i != j implies h.active[i] == g.active[i] by {
                assert(self.active@[i] == before.active@[i]);
            }
        }
        assert(runs(h, h.active[j]));
        lemma_changed_inv(g, h, j);
        assert forall|i: int| 0 <= i < self.active@.len() implies (#[trigger] self.active@[i]).parts_ok() by {
            if i != j {
                assert(before.active@[i].parts_ok());
            }
        }
    }

    /// The rows that decode a token next: those with guidance, and the others.
    pub fn decode_rows(&self) -> (r: (Vec<usize>, Vec<usize>))
        requires
            self.inv(),
        ensures
            r.0@ == guided_rows(self.state().active, self.state().active.len()),
            r.1@ == plain_rows(self.state().active, self.state().active.len()),
    {
        let mut guided: Vec<usize> = Vec::new();
        let mut plain: Vec<usize> = Vec::new();
        let ghost jobs = self.state().active;
        let mut i: usize = 0;
        while i < self.active.len()
            invariant
                i <= self.active@.len(),
                self.inv(),
                jobs == self.state().active,
                guided@ == guided_rows(jobs, i as nat),
                plain@ == plain_rows(jobs, i as nat),
            decreases self.active@.len() - i,
        {
            assert(runs(self.state(), jobs[i as int]));
            let job = &self.active[i];
            assert(job@ == jobs[i as int]);
            if job.prefill_done() && !job.done {
                if job.neg_seq.is_some() {
                    guided.push(i);
                } else {
                    plain.push(i);
                }
            }
            i = i + 1;
        }
        (guided, plain)
    }

    /// Whether the rows may speculate: none of them has a filter.
    pub fn may_speculate(&self, rows: &Vec<usize>) -> (r: bool)
        requires
            forall|i: int| 0 <= i < rows@.len() ==> (#[trigger] rows@[i]) < self.state().active.len(),
        ensures
            r == forall|i: int|
                0 <= i < rows@.len() ==> self.state().active[(#[trigger] rows@[i]) as int].filters.len() == 0,
    {
        let mut i: usize = 0;
        while i < rows.len()
            invariant
                i <= rows@.len(),
                forall|k: int| 0 <= k < rows@.len() ==> (#[trigger] rows@[k]) < self.state().active.len(),
                forall|k: int|
                    0 <= k < i ==> self.state().active[(#[trigger] rows@[k]) as int].filters.len() == 0,
            decreases rows@.len() - i,
        {
            assert(rows@[i as int] < self.state().active.len());
            if self.active[rows[i]].filters.len() > 0 {
                assert(self.state().active[rows@[i as int] as int].filters.len() != 0);
                return false;
            }
            i = i + 1;
        }
        true
    }

    /// Job `j` takes a new token. Returns what it meets.
    pub fn take_token(&mut self, j: usize, next: i64) -> (r: Hits)
        requires
            old(self).inv(),
            j < old(self).state().active.len(),
            decodes(old(self).state().active[j as int]),
        ensures
            final(self).mid(j as int, r),
            r == hits_of(old(self).state().active[j as int], next),
            final(self).state() == with_job(
                old(self).state(),
                j as int,
                with_token(old(self).state().active[j as int], next),
            ),
    {
        let ghost g = self.state();
        let ghost act = self.active@;
        assert(runs(g, g.active[j as int]));
        assert(act[j as int].parts_ok());
        let h = self.active[j].take_token(next);
        proof {
            let s = with_token(g.active[j as int], next);
            assert(states(self.active@) =~= g.active.update(j as int, s)) by {
                assert forall|i: int| 0 <= i < act.len() && i != j implies states(self.active@)[i] == g.active[i] by {
                    assert(self.active@[i] == act[i]);
                }
            }
            assert(self.state() =~= with_job(g, j as int, s));
            assert forall|i: int| 0 <= i < self.state().active.len() && i != j implies runs(
                self.state(),
                #[trigger] self.state().active[i],
            ) by {
                assert(runs(g, g.active[i]));
            }
            assert forall|i: int| 0 <= i < self.active@.len() implies (#[trigger] self.active@[i]).parts_ok() by {
                if i != j {
                    assert(act[i].parts_ok());
                }
            }
        }
        h
    }

    /// Which tokens of job `j` are decoded for the event of its new token.
    pub fn windows(&self, j: usize, h: Hits) -> (r: Windows)
        requires
            self.mid(j as int, h),
        ensures
            r == windows_of(self.state().active[j as int], h),
    {
        self.active[j].windows(h)
    }

    /// Some tokens of job `j`.
    pub fn tokens(&self, j: usize, from: usize, to: usize) -> (r: Vec<i64>)
        requires
            j < self.state().active.len(),
            from <= to <= self.state().active[j as int].seq.len(),
        ensures
            r@ == self.state().active[j as int].seq.subrange(from as int, to as int),
    {
        let mut r: Vec<i64> = Vec::new();
        let mut i: usize = from;
        let ghost all = self.active@[j as int].seq@;
        assert(self.state().active[j as int].seq == all);
        while i < to
            invariant
                from <= i <= to <= all.len(),
                j < self.active@.len(),
                all == self.active@[j as int].seq@,
                r@ == all.subrange(from as int, i as int),
            decreases to - i,
        {
            r.push(self.active[j].seq[i]);
            i = i + 1;
            assert(r@ =~= all.subrange(from as int, i as int));
        }
        r
    }

    /// The prompt of a job and what was generated.
    pub fn sequence(&self, j: usize) -> (r: Vec<i64>)
        requires
            j < self.state().active.len(),
        ensures
            r@ == self.state().active[j as int].seq,
    {
        let n: usize = self.active[j].seq.len();
        let r = self.tokens(j, 0, n);
        assert(r@ =~= self.state().active[j as int].seq);
        r
    }

    /// The event of the new token of job `j`, from what was decoded for it.
    pub fn finish_event(&mut self, j: usize, h: Hits, heard: &Heard) -> (r: StreamEvent)
        requires
            old(self).mid(j as int, h),
        ensures
            final(self).inv(),
            ({
                let g = old(self).state();
                let (s, told) = finished(g.active[j as int], h, *heard, g.rq_budget);
                &&& final(self).state() == with_job(g, j as int, s)
                &&& r.told() == told
            }),
    {
        let ghost g = self.state();
        let ghost act = self.active@;
        assert(act[j as int].parts_ok());
        let budget = self.rq_budget;
        let r = self.active[j].finish_event(h, heard, budget);
        proof {
            let s = finished(g.active[j as int], h, *heard, g.rq_budget).0;
            assert(states(self.active@) =~= g.active.update(j as int, s)) by {
                assert forall|i: int| 0 <= i < act.len() && i != j implies states(self.active@)[i] == g.active[i] by {
                    assert(self.active@[i] == act[i]);
                }
            }
            assert(self.state() =~= with_job(g, j as int, s));
            assert forall|i: int| 0 <= i < self.state().active.len() implies runs(
                self.state(),
                #[trigger] self.state().active[i],
            ) by {
                if i != j {
                    assert(runs(g, g.active[i]));
                }
            }
            assert forall|i: int| 0 <= i < self.active@.len() implies (#[trigger] self.active@[i]).parts_ok() by {
                if i != j {
                    assert(act[i].parts_ok());
                }
            }
        }
        r
    }
}

/// A job after a speculative round that drafted `drafted` tokens and accepted so many of them.
pub open spec fn tallied(s: JobState, accepted: int, drafted: int) -> JobState {
    JobState {
        accepted_draft_tokens: (s.accepted_draft_tokens + accepted) as u64,
        rejected_draft_tokens: (s.rejected_draft_tokens + drafted - accepted) as u64,
        ..s
    }
}

impl Generator {
    /// Count a speculative round of job `j`: `drafted` tokens were drafted, `taken` tokens are
    /// added, the last of which is the verifier's own.
    pub fn tally(&mut self, j: usize, taken: usize, drafted: usize)
        requires
            old(self).inv(),
            j < old(self).state().active.len(),
            1 <= taken <= drafted + 1,
            old(self).state().accepted + drafted <= u64::MAX,
            old(self).state().drafted + drafted <= u64::MAX,
            old(self).state().active[j as int].accepted_draft_tokens + drafted <= u64::MAX,
            old(self).state().active[j as int].rejected_draft_tokens + drafted <= u64::MAX,
        ensures
            final(self).inv(),
            final(self).state() == (GenState {
                accepted: (old(self).state().accepted + taken - 1) as u64,
                drafted: (old(self).state().drafted + drafted) as u64,
                ..with_job(
                    old(self).state(),
                    j as int,
                    tallied(old(self).state().active[j as int], taken - 1, drafted as int),
                )
            }),
    {
        let ghost g = self.state();
        assert(runs(g, g.active[j as int]));
        assert(self.active@[j as int].parts_ok());
        let n: u64 = (taken - 1) as u64;
        let a: u64 = self.active[j].accepted_draft_tokens;
        let b: u64 = self.active[j].rejected_draft_tokens;
        self.active[j].accepted_draft_tokens = a + n;
        self.active[j].rejected_draft_tokens = b + (drafted as u64 - n);
        proof {
            assert(self.active@[j as int]@ =~= tallied(g.active[j as int], taken - 1, drafted as int));
            self.lemma_one_changed(*old(self), j as int);
        }
        let ghost h = self.state();
        self.accepted = self.accepted + n;
        self.drafted = self.drafted + drafted as u64;
        proof {
            assert(self.state() =~= (GenState { accepted: self.accepted, drafted: self.drafted, ..h }));
            lemma_runs_frame(h, self.state());
        }
    }

    /// The speculator's state of job `j` is primed.
    pub fn set_primed(&mut self, j: usize)
        requires
            old(self).inv(),
            j < old(self).state().active.len(),
        ensures
            final(self).inv(),
            final(self).state() == with_job(
                old(self).state(),
                j as int,
                JobState { spec_primed: true, ..old(self).state().active[j as int] },
            ),
    {
        let ghost g = self.state();
        assert(runs(g, g.active[j as int]));
        assert(self.active@[j as int].parts_ok());
        self.active[j].spec_primed = true;
        proof {
            assert(self.active@[j as int]@ =~= (JobState { spec_primed: true, ..g.active[j as int] }));
            self.lemma_one_changed(*old(self), j as int);
        }
    }

    /// The healed token of job `j` was sampled.
    pub fn end_healing(&mut self, j: usize)
        requires
            old(self).inv(),
            j < old(self).state().active.len(),
        ensures
            final(self).inv(),
            final(self).state() == with_job(
                old(self).state(),
                j as int,
                JobState { heal_pending: false, heal_allowed: seq![], ..old(self).state().active[j as int] },
            ),
    {
        let ghost g = self.state();
        assert(runs(g, g.active[j as int]));
        assert(self.active@[j as int].parts_ok());
        self.active[j].end_healing();
        proof {
            self.lemma_one_changed(*old(self), j as int);
        }
    }

    /// The negative context of job `j` is in the cache, but for its last token. Returns how many
    /// tokens of it had to be ingested, or `None` where it was primed before.
    pub fn prime_guidance(&mut self, j: usize) -> (r: Option<i64>)
        requires
            old(self).inv(),
            j < old(self).state().active.len(),
            old(self).state().active[j as int].neg_seq matches Some(n) && n.len() <= i64::MAX,
        ensures
            final(self).inv(),
            ({
                let s = old(self).state().active[j as int];
                if s.cfg_primed {
                    r is None && final(self).state() == old(self).state()
                } else {
                    &&& r == Some((s.neg_seq->0.len() - 1) as i64)
                    &&& final(self).state() == with_job(
                        old(self).state(),
                        j as int,
                        JobState { neg_kv_pos: (s.neg_seq->0.len() - 1) as i64, cfg_primed: true, ..s },
                    )
                }
            }),
    {
        let ghost g = self.state();
        assert(runs(g, g.active[j as int]));
        assert(self.active@[j as int].parts_ok());
        if self.active[j].cfg_primed {
            return None;
        }
        let n: i64 = match &self.active[j].neg_seq {
            Some(v) => v.len() as i64 - 1,
            None => 0,
        };
        self.active[j].neg_kv_pos = n;
        self.active[j].cfg_primed = true;
        proof {
            assert(self.active@[j as int]@ =~= (JobState { neg_kv_pos: n, cfg_primed: true, ..g.active[j as int] }));
            self.lemma_one_changed(*old(self), j as int);
        }
        Some(n)
    }

    /// The negative context of job `j` takes the token that the job takes.
    pub fn guide(&mut self, j: usize, next: i64)
        requires
            old(self).inv(),
            j < old(self).state().active.len(),
            old(self).state().active[j as int].neg_seq is Some,
            old(self).state().active[j as int].neg_kv_pos < i64::MAX,
        ensures
            final(self).inv(),
            ({
                let s = old(self).state().active[j as int];
                final(self).state() == with_job(
                    old(self).state(),
                    j as int,
                    JobState { neg_kv_pos: (s.neg_kv_pos + 1) as i64, neg_seq: Some(s.neg_seq->0.push(next)), ..s },
                )
            }),
    {
        let ghost g = self.state();
        let ghost s = g.active[j as int];
        assert(runs(g, s));
        assert(self.active@[j as int].parts_ok());
        let at: i64 = self.active[j].neg_kv_pos;
        self.active[j].neg_kv_pos = at + 1;
        match &mut self.active[j].neg_seq {
            Some(v) => {
                v.push(next);
            },
            None => {},
        }
        proof {
            assert(self.active@[j as int]@ =~= (JobState {
                neg_kv_pos: (s.neg_kv_pos + 1) as i64,
                neg_seq: Some(s.neg_seq->0.push(next)),
                ..s
            }));
            self.lemma_one_changed(*old(self), j as int);
        }
    }
}

/// A chunk reaches as far as it may: no page boundary that it could end on lies behind its end, and
/// where it ends on none, it takes all that is left before the last token.
pub proof fn chunks_reach_as_far_as_they_may(start: int, prompt_len: int, max_chunk: int, page: int)
    requires
        0 <= start < prompt_len - 1,
        max_chunk >= 256,
        256 * page <= start + max_chunk,
        256 * page <= prompt_len - 1,
    ensures
        256 * page <= chunk_end(start, prompt_len, max_chunk),
        chunk_end(start, prompt_len, max_chunk) % 256 != 0 ==> chunk_end(start, prompt_len, max_chunk) == prompt_len - 1,
{
}

/// Every drafted token is counted once: as accepted or as rejected.
pub proof fn drafts_are_accepted_or_rejected(s: JobState, accepted: int, drafted: int)
    requires
        0 <= accepted <= drafted,
        s.accepted_draft_tokens + drafted <= u64::MAX,
        s.rejected_draft_tokens + drafted <= u64::MAX,
    ensures
        ({
            let t = tallied(s, accepted, drafted);
            &&& t.accepted_draft_tokens == s.accepted_draft_tokens + accepted
            &&& t.accepted_draft_tokens + t.rejected_draft_tokens == s.accepted_draft_tokens + s.rejected_draft_tokens
                + drafted
            &&& t.seq == s.seq && t.kv_pos == s.kv_pos && t.new_tokens == s.new_tokens
        }),
{
}

} // verus!
