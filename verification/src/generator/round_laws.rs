//! Which jobs take part in a round, how they leave, and what is drafted for them.
use vstd::prelude::*;

use crate::generator::engine;
use crate::generator::engine::{Attempt, CacheKind, GenState, SpecKind};
use crate::generator::job::{ngram_draft, requeued, EosReason, JobState};

verus! {

/// Whether a job has its prompt in the cache, but for the last token, and has not ended.
pub open spec fn is_decoding(s: JobState) -> bool {
    s.kv_pos >= s.prompt_len - 1 && !s.done
}

/// A round decodes exactly the jobs whose prompts are in the cache and that have not ended, in
/// order: those without a negative context by themselves, the others with it.
pub proof fn rounds_take_every_job_that_decodes(jobs: Seq<JobState>, n: nat)
    requires
        n <= jobs.len() <= usize::MAX,
    ensures
        forall|i: int|
            0 <= i < n ==> (#[trigger] engine::plain_rows(jobs, n).contains(i as usize) <==> is_decoding(jobs[i])
                && jobs[i].neg_seq is None),
        forall|i: int|
            0 <= i < n ==> (#[trigger] engine::guided_rows(jobs, n).contains(i as usize) <==> is_decoding(jobs[i])
                && jobs[i].neg_seq is Some),
        forall|a: int, b: int|
            0 <= a < b < engine::plain_rows(jobs, n).len() ==> engine::plain_rows(jobs, n)[a] < engine::plain_rows(jobs, n)[b],
        forall|a: int, b: int|
            0 <= a < b < engine::guided_rows(jobs, n).len() ==> engine::guided_rows(jobs, n)[a] < engine::guided_rows(
                jobs,
                n,
            )[b],
        forall|a: int| 0 <= a < engine::plain_rows(jobs, n).len() ==> #[trigger] engine::plain_rows(jobs, n)[a] < n,
        forall|a: int| 0 <= a < engine::guided_rows(jobs, n).len() ==> #[trigger] engine::guided_rows(jobs, n)[a] < n,
    decreases n,
{
    if n > 0 {
        let m = (n - 1) as nat;
        rounds_take_every_job_that_decodes(jobs, m);
        let p0 = engine::plain_rows(jobs, m);
        let p = engine::plain_rows(jobs, n);
        let g0 = engine::guided_rows(jobs, m);
        let g = engine::guided_rows(jobs, n);
        assert forall|i: int| 0 <= i < n implies (#[trigger] p.contains(i as usize) <==> is_decoding(jobs[i])
            && jobs[i].neg_seq is None) by {
            if i < m {
                assert(p0.contains(i as usize) <==> is_decoding(jobs[i]) && jobs[i].neg_seq is None);
                if p0.contains(i as usize) {
                    let a = choose|a: int| 0 <= a < p0.len() && p0[a] == i as usize;
                    assert(p[a] == i as usize);
                }
                if p.contains(i as usize) {
                    let a = choose|a: int| 0 <= a < p.len() && p[a] == i as usize;
                    assert(a < p0.len());
                    assert(p0[a] == i as usize);
                }
            } else {
                if is_decoding(jobs[i]) && jobs[i].neg_seq is None {
                    assert(p[p.len() - 1] == i as usize);
                }
                if p.contains(i as usize) {
                    let a = choose|a: int| 0 <= a < p.len() && p[a] == i as usize;
                    if a < p0.len() {
                        assert(p0[a] < m);
                    }
                }
            }
        }
        assert forall|i: int| 0 <= i < n implies (#[trigger] g.contains(i as usize) <==> is_decoding(jobs[i])
            && jobs[i].neg_seq is Some) by {
            if i < m {
                assert(g0.contains(i as usize) <==> is_decoding(jobs[i]) && jobs[i].neg_seq is Some);
                if g0.contains(i as usize) {
                    let a = choose|a: int| 0 <= a < g0.len() && g0[a] == i as usize;
                    assert(g[a] == i as usize);
                }
                if g.contains(i as usize) {
                    let a = choose|a: int| 0 <= a < g.len() && g[a] == i as usize;
                    assert(a < g0.len());
                    assert(g0[a] == i as usize);
                }
            } else {
                if is_decoding(jobs[i]) && jobs[i].neg_seq is Some {
                    assert(g[g.len() - 1] == i as usize);
                }
                if g.contains(i as usize) {
                    let a = choose|a: int| 0 <= a < g.len() && g[a] == i as usize;
                    if a < g0.len() {
                        assert(g0[a] < m);
                    }
                }
            }
        }
    }
}

/// A round may draft only where none of its rows is filtered; it may then draft from what was
/// said before, and by a speculator, each where there is one; and it can always fall back on one
/// token for each row, which it tries last.
pub proof fn filtered_rows_are_not_drafted(g: GenState, rows: Seq<usize>)
    ensures
        ({
            let v = engine::attempts_of(g, rows);
            let free = forall|i: int| 0 <= i < rows.len() ==> g.active[(#[trigger] rows[i]) as int].filters.len() == 0;
            &&& rows.len() == 0 ==> v.len() == 0
            &&& rows.len() > 0 ==> v.len() > 0 && v.last() == Attempt::Plain
            &&& rows.len() > 0 ==> (v.contains(Attempt::NGram) <==> free && g.ngram_match_min > 0)
            &&& rows.len() > 0 ==> (v.contains(Attempt::Model) <==> free && g.spec != SpecKind::Nothing)
            &&& v.contains(Attempt::NGram) ==> v[0] == Attempt::NGram
            &&& v.no_duplicates()
        }),
{
    let v = engine::attempts_of(g, rows);
    if rows.len() > 0 {
        let free = engine::unfiltered(g, rows);
        if free && g.ngram_match_min > 0 {
            assert(v[0] == Attempt::NGram);
        }
        if free && g.spec != SpecKind::Nothing {
            assert(v[v.len() - 2] == Attempt::Model);
        }
    }
}

/// A draft from what was said before repeats what followed there, token by token, no further than
/// what was said, and no more than is asked for; none is made where too little matched, or while
/// a healed token is to come.
pub proof fn drafts_repeat_what_followed(s: JobState, beg: int, end: int, length: int, shortest: int)
    requires
        0 <= end <= s.seq.len(),
        length >= 0,
    ensures
        ({
            let v = ngram_draft(s, beg, end, length, shortest);
            &&& s.heal_pending || end - beg < shortest ==> v.len() == 0
            &&& !(s.heal_pending || end - beg < shortest) ==> {
                &&& v.len() <= length && end + v.len() <= s.seq.len()
                &&& v.len() == length || end + v.len() == s.seq.len()
                &&& forall|i: int| 0 <= i < v.len() ==> #[trigger] v[i] == s.seq[end + i]
            }
        }),
{
}

/// Once a draft is verified, a recurrent state goes back to just the places that were kept; the
/// head's cache takes the confirmed tokens of the head's own drafts alone.
pub proof fn rejected_places_are_taken_back(g: GenState, s: JobState, a: Attempt, taken: int, drafted: int)
    requires
        1 <= taken <= drafted + 1,
        drafted < i64::MAX,
        drafted < usize::MAX,
        s.slot <= usize::MAX,
    ensures
        ({
            let w = engine::row_work_of(g, s, a, taken, drafted);
            &&& w.rewind is Some <==> g.cache == CacheKind::Hybrid
            &&& w.rewind matches Some((slot, kept, places)) ==> slot == s.slot && kept == taken && places == drafted + 1
            &&& w.sync is Some <==> g.spec == SpecKind::Mtp && a == Attempt::Model
            &&& w.sync matches Some((n, at)) ==> n + 1 == taken && at == s.kv_pos
            &&& w.ingest is Some ==> g.spec == SpecKind::DFlash2
            &&& w.ingest matches Some((slot, n, at)) ==> n == taken && at == s.kv_pos && slot < g.dflash2_slots && (s.slot
                >= 0 ==> slot == s.slot)
        }),
{
}

/// A cancelled job no longer waits, and every other job waits where it did, in order. Where it
/// runs it has ended, for that reason, and no job with another serial is touched.
pub proof fn cancelling_takes_one_job(queue: Seq<JobState>, active: Seq<JobState>, serial: u64)
    ensures
        engine::others(queue, serial) == queue.filter(|s: JobState| s.serial != serial),
        engine::with_cancelled(active, serial).len() == active.len(),
        forall|i: int|
            0 <= i < active.len() && active[i].serial != serial ==> #[trigger] engine::with_cancelled(active, serial)[i]
                == active[i],
        forall|i: int|
            0 <= i < active.len() && active[i].serial == serial && (forall|k: int|
                0 <= k < i ==> (#[trigger] active[k]).serial != serial) ==> (#[trigger] engine::with_cancelled(active, serial)[i])
                == (JobState { done: true, eos_reason: Some(EosReason::Cancelled), ..active[i] }),
{
    lemma_others(queue, serial);
    lemma_job_index(active, serial);
}

proof fn lemma_others(jobs: Seq<JobState>, serial: u64)
    ensures
        engine::others(jobs, serial) == jobs.filter(|s: JobState| s.serial != serial),
    decreases jobs.len(),
{
    reveal(Seq::filter);
    let pred = |s: JobState| s.serial != serial;
    if jobs.len() > 0 {
        lemma_others(jobs.drop_last(), serial);
        assert(pred(jobs.last()) == (jobs.last().serial != serial));
    }
}

proof fn lemma_job_index(jobs: Seq<JobState>, serial: u64)
    ensures
        0 <= engine::job_index(jobs, serial) <= jobs.len(),
        engine::job_index(jobs, serial) < jobs.len() ==> jobs[engine::job_index(jobs, serial)].serial == serial,
        forall|i: int| 0 <= i < engine::job_index(jobs, serial) ==> (#[trigger] jobs[i]).serial != serial,
    decreases jobs.len(),
{
    if jobs.len() > 0 {
        let front = jobs.drop_last();
        lemma_job_index(front, serial);
        assert forall|i: int| 0 <= i < engine::job_index(jobs, serial) implies (#[trigger] jobs[i]).serial != serial by {
            if i < front.len() {
                assert(front[i] == jobs[i]);
            }
        }
    }
}

/// Whether a job stays when the ended ones leave.
pub open spec fn stays(s: JobState) -> bool {
    !s.done && !s.requeue_pending
}

/// Whether a job that waits is one, from place `i` on, that ran and is to wait again.
pub open spec fn waits_again(g: GenState, i: int, x: JobState) -> bool {
    exists|m: int|
        i <= m < g.active.len() && !g.active[m].done && (#[trigger] g.active[m]).requeue_pending && x == requeued(
            g.active[m],
        )
}

/// When the jobs that have ended leave, the others run on in order. A job that is to wait again
/// goes to the front of the queue, with what it said as its prompt; the jobs that waited already
/// wait on behind it, in order.
pub proof fn ended_jobs_leave_and_the_others_stay(g: GenState, i: int)
    requires
        0 <= i <= g.active.len(),
        forall|k: int| 0 <= k < i ==> stays(#[trigger] g.active[k]),
    ensures
        ({
            let h = engine::reaped_from(g, i).0;
            &&& h.active == g.active.filter(|s: JobState| stays(s))
            &&& h.queue.len() >= g.queue.len()
            &&& h.queue.skip(h.queue.len() - g.queue.len()) == g.queue
            &&& forall|k: int|
                i <= k < g.active.len() && !g.active[k].done && (#[trigger] g.active[k]).requeue_pending ==> h.queue.take(
                    h.queue.len() - g.queue.len(),
                ).contains(requeued(g.active[k]))
            &&& forall|k: int| 0 <= k < h.queue.len() - g.queue.len() ==> waits_again(g, i, #[trigger] h.queue[k])
        }),
    decreases g.active.len() - i,
{
    let pred = |s: JobState| stays(s);
    if i == g.active.len() {
        lemma_all_stay(g.active);
        let h = engine::reaped_from(g, i).0;
        assert(h == g);
        assert(h.queue.skip(h.queue.len() - g.queue.len()) =~= g.queue);
    } else {
        let s = g.active[i];
        if s.done || s.requeue_pending {
            let g1 = GenState { active: g.active.remove(i), ..g };
            let f = engine::freed_job(g1, s).0;
            let k = if s.done {
                f
            } else {
                GenState { queue: seq![requeued(s)] + f.queue, ..f }
            };
            assert forall|m: int| 0 <= m < i implies stays(#[trigger] k.active[m]) by {
                assert(k.active[m] == g.active[m]);
            }
            ended_jobs_leave_and_the_others_stay(k, i);
            lemma_filter_remove(g.active, i);
            let h = engine::reaped_from(g, i).0;
            let n = h.queue.len() - g.queue.len();
            let n1 = h.queue.len() - k.queue.len();
            assert(h.queue.skip(n1) == k.queue);
            if s.done {
                assert(n == n1);
            } else {
                assert(n == n1 + 1);
                assert(h.queue.skip(n1)[0] == requeued(s));
                assert(h.queue[n1] == requeued(s));
                assert(h.queue.skip(n) =~= g.queue) by {
                    assert forall|m: int| 0 <= m < g.queue.len() implies h.queue[n + m] == #[trigger] g.queue[m] by {
                        assert(h.queue.skip(n1)[m + 1] == k.queue[m + 1]);
                    }
                }
            }
            let front = h.queue.take(n);
            assert forall|m: int| i <= m < g.active.len() && !g.active[m].done && (#[trigger] g.active[m]).requeue_pending implies
                front.contains(requeued(g.active[m])) by {
                if m == i {
                    assert(front[n1] == requeued(s));
                } else {
                    assert(k.active[m - 1] == g.active[m]);
                    let fr = h.queue.take(n1);
                    assert(fr.contains(requeued(k.active[m - 1])));
                    let q = choose|q: int| 0 <= q < fr.len() && fr[q] == requeued(k.active[m - 1]);
                    assert(front[q] == fr[q]);
                }
            }
            assert forall|q: int| 0 <= q < n implies waits_again(g, i, #[trigger] h.queue[q]) by {
                if q < n1 {
                    assert(waits_again(k, i, h.queue[q]));
                    let m = choose|m: int|
                        i <= m < k.active.len() && !k.active[m].done && (#[trigger] k.active[m]).requeue_pending
                            && h.queue[q] == requeued(k.active[m]);
                    assert(g.active[m + 1] == k.active[m]);
                } else {
                    assert(q == n1 && !s.done);
                    assert(g.active[i] == s);
                }
            }
        } else {
            assert forall|m: int| 0 <= m < i + 1 implies stays(#[trigger] g.active[m]) by {}
            ended_jobs_leave_and_the_others_stay(g, i + 1);
            let h = engine::reaped_from(g, i).0;
            assert forall|q: int| 0 <= q < h.queue.len() - g.queue.len() implies waits_again(g, i, #[trigger] h.queue[q]) by {
                assert(waits_again(g, i + 1, h.queue[q]));
                let m = choose|m: int|
                    i + 1 <= m < g.active.len() && !g.active[m].done && (#[trigger] g.active[m]).requeue_pending
                        && h.queue[q] == requeued(g.active[m]);
            }
        }
    }
}

proof fn lemma_all_stay(jobs: Seq<JobState>)
    requires
        forall|k: int| 0 <= k < jobs.len() ==> stays(#[trigger] jobs[k]),
    ensures
        jobs.filter(|s: JobState| stays(s)) == jobs,
    decreases jobs.len(),
{
    reveal(Seq::filter);
    if jobs.len() > 0 {
        let front = jobs.drop_last();
        assert forall|k: int| 0 <= k < front.len() implies stays(#[trigger] front[k]) by {
            assert(front[k] == jobs[k]);
        }
        lemma_all_stay(front);
        assert(stays(jobs[jobs.len() - 1]));
        assert(front.push(jobs.last()) =~= jobs);
    }
}

/// A job that leaves does not change which others stay.
proof fn lemma_filter_remove(jobs: Seq<JobState>, i: int)
    requires
        0 <= i < jobs.len(),
        !stays(jobs[i]),
    ensures
        jobs.remove(i).filter(|s: JobState| stays(s)) == jobs.filter(|s: JobState| stays(s)),
    decreases jobs.len(),
{
    reveal(Seq::filter);
    let pred = |s: JobState| stays(s);
    let front = jobs.drop_last();
    if i == jobs.len() - 1 {
        assert(jobs.remove(i) =~= front);
        assert(!pred(jobs.last()));
    } else {
        assert(front[i] == jobs[i]);
        lemma_filter_remove(front, i);
        let r = jobs.remove(i);
        assert(r.drop_last() =~= front.remove(i));
        assert(r.last() == jobs.last());
    }
}

/// Prompts are ingested by whole pages: as many as asked for, a page at least, and less than one
/// more.
pub proof fn chunks_are_whole_pages(asked: int)
    ensures
        engine::chunk_of(asked) % 256 == 0,
        engine::chunk_of(asked) >= 256,
        asked <= engine::chunk_of(asked),
        asked >= 256 ==> engine::chunk_of(asked) < asked + 256,
        asked < 256 ==> engine::chunk_of(asked) == 256,
{
}

} // verus!
