//! What ends a job, and what its events carry.
use vstd::prelude::*;
use vstd::utf8::encode_utf8;

use crate::filter::state::{effect, Fj};
use crate::generator::emission::{has_none, is_earliest, starts_with, the_earliest_stop_is_found};
use crate::generator::engine;
use crate::generator::engine::{GenState};
use crate::generator::job::{
    finished, hits_of, job_ok, loop_period, new_job, told_next, windows_of, with_window, without_healed, EosReason, Heard,
    Hits, JobSpec, JobState,
};
use crate::paged::{page_count, spare};

verus! {

/// Whether `text` is what was decoded, without what the healed token brought from the prompt.
pub open spec fn is_own_text(s: JobState, raw: Seq<u8>, text: Seq<u8>) -> bool {
    if s.heal_offset == 1 && starts_with(raw, s.unhealed_piece) {
        raw == s.unhealed_piece + text
    } else {
        raw == text
    }
}

proof fn lemma_own_text(s: JobState, raw: Seq<u8>, text: Seq<u8>)
    requires
        is_own_text(s, raw, text),
    ensures
        without_healed(s, raw) == text,
{
    if s.heal_offset == 1 && starts_with(raw, s.unhealed_piece) {
        assert(raw.skip(s.unhealed_piece.len() as int) =~= text);
    }
}

/// A job whose text holds a stop string ends there: its last event carries the text up to the
/// earliest place at which any of the listed stop strings stands, and names a stop string as
/// the reason, whatever else the token meets.
pub proof fn texts_end_at_the_earliest_stop(
    s: JobState,
    h: Hits,
    heard: Heard,
    budget: usize,
    text: Seq<u8>,
    p: int,
)
    requires
        s.stop_strings.len() > 0,
        is_own_text(s, encode_utf8(heard.text@), text),
        is_earliest(text, s.stop_strings, p),
    ensures
        ({
            let (t, ev) = finished(s, h, heard, budget);
            &&& ev.eos && t.done
            &&& ev.eos_reason == Some(EosReason::StopString) && t.eos_reason == ev.eos_reason
            &&& ev.full_text == Some(text.take(p))
        }),
{
    lemma_own_text(s, encode_utf8(heard.text@), text);
    the_earliest_stop_is_found(text, s.stop_strings);
    let found = crate::generator::emission::first_stop(text, s.stop_strings);
    let k = choose|k: int|
        0 <= k < s.stop_strings.len() && 0 <= p && p + (#[trigger] s.stop_strings[k]).len() <= text.len()
            && text.subrange(p, p + s.stop_strings[k].len()) == s.stop_strings[k];
    match found {
        None => {
            assert(text.subrange(p, p + s.stop_strings[k].len()) != s.stop_strings[k]);
        },
        Some(q) => {
            if p < q {
                assert(text.subrange(p, p + s.stop_strings[k].len()) != s.stop_strings[k]);
            }
            if q < p {
                let j = choose|j: int|
                    0 <= j < s.stop_strings.len() && 0 <= q && q + (#[trigger] s.stop_strings[j]).len() <= text.len()
                        && text.subrange(q, q + s.stop_strings[j].len()) == s.stop_strings[j];
                assert(text.subrange(q, q + s.stop_strings[j].len()) != s.stop_strings[j]);
            }
        },
    }
}

/// Without a stop string in its text, a job ends with a stop token, of which the text shows
/// nothing; else with its whole text, at its greatest length, on a loop, or on a completed
/// filter, in this order; and else it goes on.
pub proof fn reasons_come_in_order(
    s: JobState,
    h: Hits,
    heard: Heard,
    budget: usize,
    text: Seq<u8>,
    before: Seq<u8>,
)
    requires
        s.stop_strings.len() > 0 || h.stop || h.max || h.looping || h.filter,
        is_own_text(s, encode_utf8(heard.text@), text),
        is_own_text(s, encode_utf8(heard.without_last@), before),
        has_none(text, s.stop_strings),
    ensures
        ({
            let (t, ev) = finished(s, h, heard, budget);
            &&& h.stop ==> ev.eos_reason == Some(EosReason::StopToken) && ev.full_text == Some(before)
            &&& !h.stop && h.max ==> ev.eos_reason == Some(EosReason::MaxNewTokens) && ev.full_text == Some(text)
            &&& !h.stop && !h.max && h.looping ==> ev.eos_reason == Some(EosReason::LoopDetected) && ev.full_text == Some(
                text,
            )
            &&& !h.stop && !h.max && !h.looping && h.filter ==> ev.eos_reason == Some(EosReason::FilterCompleted)
                && ev.full_text == Some(text)
            &&& !h.stop && !h.max && !h.looping && !h.filter ==> !ev.eos && ev.eos_reason is None && ev.full_text is None
                && t.done == s.done
            &&& ev.eos ==> t.done
        }),
{
    lemma_own_text(s, encode_utf8(heard.text@), text);
    lemma_own_text(s, encode_utf8(heard.without_last@), before);
    the_earliest_stop_is_found(text, s.stop_strings);
    let found = crate::generator::emission::first_stop(text, s.stop_strings);
    if let Some(q) = found {
        let j = choose|j: int|
            0 <= j < s.stop_strings.len() && 0 <= q && q + (#[trigger] s.stop_strings[j]).len() <= text.len()
                && text.subrange(q, q + s.stop_strings[j].len()) == s.stop_strings[j];
        assert(text.subrange(q, q + s.stop_strings[j].len()) != s.stop_strings[j]);
    }
}

/// A token ends a job as a stop token where it is one and more than the least number of tokens
/// came with it; by its greatest length where as many came; and as a filter's last where a
/// filter that stops its job is completed by it. The token that was healed does not count.
pub proof fn tokens_meet_what_they_are(s: JobState, next: i64)
    requires
        job_ok(s),
        s.seq.len() + 1 - s.stream_prompt_len <= usize::MAX,
    ensures
        ({
            let h = hits_of(s, next);
            let came = s.seq.len() + 1 - s.stream_prompt_len - s.heal_offset;
            &&& h.token == next
            &&& h.stop <==> s.stop_tokens.contains(next) && came > s.min_new
            &&& h.max <==> came >= s.max_new
            &&& h.filter <==> exists|i: int|
                0 <= i < s.filters.len() && effect(#[trigger] s.filters[i], next) == Fj::Complete && s.filters[i].stops
        }),
{
}

/// A healed job starts without the last prompt token, and generates it again among the tokens
/// given for it; any other starts with its prompt as it is.
pub proof fn healed_jobs_drop_one_token(spec: JobSpec, serial: u64, piece: Seq<u8>, allowed: Seq<i64>)
    requires
        spec.sensible(),
    ensures
        ({
            let s = new_job(spec, serial, piece, allowed);
            &&& s.prompt_len == s.seq.len() && s.stream_prompt_len == s.seq.len() && s.new_tokens == 0 && s.kv_pos == 0
            &&& spec.token_healing && spec.prompt@.len() > 1 && allowed.len() > 0 ==> {
                &&& s.seq + seq![s.prefix_token->0] == spec.prompt@ && s.prefix_token is Some
                &&& s.heal_pending && s.heal_allowed == allowed && s.unhealed_piece == piece && s.heal_offset == 1
            }
            &&& !(spec.token_healing && spec.prompt@.len() > 1 && allowed.len() > 0) ==> {
                &&& s.seq == spec.prompt@ && s.prefix_token is None
                &&& !s.heal_pending && s.heal_allowed.len() == 0 && s.heal_offset == 0
            }
            &&& s.max_new == spec.max_new && s.min_new == spec.min_new && s.stop_tokens == spec.stop_tokens@
            &&& s.neg_seq is Some <==> spec.negative is Some
        }),
{
    let s = new_job(spec, serial, piece, allowed);
    let p = spec.prompt@;
    if spec.token_healing && p.len() > 1 && allowed.len() > 0 {
        assert(s.seq + seq![p.last()] =~= p);
    }
}

/// Pages hold tokens by the whole page: as many as are needed, and not one more.
pub proof fn pages_are_just_enough(n: int)
    requires
        n >= 0,
    ensures
        256 * page_count(n) >= n,
        n > 0 ==> 256 * (page_count(n) - 1) < n,
        n == 0 ==> page_count(n) == 0,
{
}

/// How many tokens a job can come to: its prompt, what may still be generated, and one.
pub open spec fn reach_of(s: JobState) -> int {
    s.prompt_len + (if s.max_new > s.new_tokens {
        s.max_new - s.new_tokens
    } else {
        0
    }) + 1
}

/// The job that waits longest is refused only where it could not run alone in the pool. It runs
/// as soon as a row is free and the free pages hold all that it can come to; till then it
/// waits, and none that came later goes before it. A job with a negative context needs rows and
/// pages for two.
pub proof fn waiting_jobs_are_judged_by_their_reach(g: GenState)
    requires
        g.queue.len() > 0,
        g.active.len() < g.max_batch,
        g.queue[0].prompt_len >= 1,
    ensures
        g.queue[0].neg_seq is None ==> {
            &&& engine::verdict(g) is Refuse <==> reach_of(g.queue[0]) > 256 * g.table.size
            &&& engine::verdict(g) is Admit <==> reach_of(g.queue[0]) <= 256 * g.table.size && reach_of(g.queue[0])
                <= 256 * spare(g.table.pages)
        },
        g.queue[0].neg_seq is Some ==> {
            let both = page_count(reach_of(g.queue[0])) + page_count(
                reach_of(g.queue[0]) - g.queue[0].prompt_len + g.queue[0].neg_seq->0.len(),
            );
            &&& engine::verdict(g) is Refuse <==> both > g.table.size
            &&& engine::verdict(g) is Admit <==> both <= g.table.size && both <= spare(g.table.pages) && g.active.len() + 2
                <= g.max_batch
        },
{
    let s = g.queue[0];
    let n = reach_of(s);
    pages_are_just_enough(n);
}

/// Nothing is admitted where no row is free, or where nothing waits.
pub proof fn full_batches_admit_nothing(g: GenState)
    requires
        g.queue.len() == 0 || g.active.len() >= g.max_batch,
    ensures
        engine::verdict(g) is Stop,
{
}

/// The text of a job grows by what its newest tokens add to the window that was read before, as
/// soon as that ends in a whole character; till then nothing is added and the window waits.
pub proof fn texts_grow_by_what_the_window_adds(s: JobState, prefix: Seq<char>, text: Seq<char>, more: Seq<u8>)
    ensures
        encode_utf8(text) == encode_utf8(prefix) + more && more.len() > 0 && text.last() != '\u{FFFD}' ==> {
            let t = with_window(s, prefix, text);
            &&& t.gen_text == s.gen_text + more
            &&& t.detok_prefix == s.detok_read
            &&& t.detok_read == s.new_tokens
            &&& t.seq == s.seq && t.stop_strings == s.stop_strings && t.emitted_text == s.emitted_text
        },
        encode_utf8(text) == encode_utf8(prefix) || text.last() == '\u{FFFD}' || !starts_with(
            encode_utf8(text),
            encode_utf8(prefix),
        ) ==> with_window(s, prefix, text) == s,
{
    let a = encode_utf8(text);
    let b = encode_utf8(prefix);
    if a == b + more {
        assert(a.skip(b.len() as int) =~= more);
        assert(a.subrange(0, b.len() as int) =~= b);
        assert(a.take(b.len() as int) =~= b);
    }
    if a == b {
        assert(a.skip(b.len() as int).len() == 0);
    }
}

/// What is decoded for an event reaches to the newest token. The window that was read before is its
/// front; where the whole text is needed it starts with the first generated token.
pub proof fn windows_reach_to_the_newest_token(s: JobState, h: Hits)
    requires
        told_next(s, h),
        s.seq.len() <= usize::MAX,
    ensures
        ({
            let w = windows_of(s, h);
            &&& w.text.1 == s.seq.len()
            &&& w.prefix.0 == w.text.0
            &&& w.text.0 <= w.prefix.1 <= w.text.1
            &&& s.stop_strings.len() > 0 || h.stop || h.max || h.looping || h.filter ==> w.text.0 == s.stream_prompt_len
                && w.prefix.1 == w.prefix.0
            &&& s.stop_strings.len() == 0 && !h.stop && !h.max && !h.looping && !h.filter ==> w.text.0 - s.stream_prompt_len
                == s.detok_prefix && w.prefix.1 - s.stream_prompt_len == s.detok_read
            &&& h.stop ==> w.without_last == Some((s.stream_prompt_len as usize, (s.seq.len() - 1) as usize))
        }),
{
}

/// A loop is watched for as long a period as repeats so often within the window, and for one token
/// where none does.
pub proof fn loops_repeat_within_the_window(w: int, reps: int)
    requires
        w >= 0,
        reps >= 1,
    ensures
        ({
            let p = loop_period(w, reps);
            &&& p >= 1
            &&& w >= reps ==> p * reps <= w < (p + 1) * reps
            &&& w < reps ==> p == 1
        }),
{
    let q = w / reps;
    assert(q * reps <= w < (q + 1) * reps && q >= 0 && (w >= reps ==> q >= 1) && (w < reps ==> q == 0)) by (nonlinear_arith)
        requires
            q == w / reps,
            w >= 0,
            reps >= 1,
    ;
}

/// A job that does not end is queued again exactly where there is a budget, it has no negative
/// context, and more tokens than the budget were generated for the caller since it was last let
/// in; the token that stands for a healed one does not count. One that ends is not.
pub proof fn long_jobs_are_queued_again(s: JobState, h: Hits, heard: Heard, budget: usize)
    requires
        told_next(s, h),
        !s.requeue_pending,
    ensures
        ({
            let (t, ev) = finished(s, h, heard, budget);
            let came = s.seq.len() - s.prompt_len - (if s.prompt_len == s.stream_prompt_len {
                s.heal_offset as int
            } else {
                0
            });
            &&& ev.eos ==> !t.requeue_pending
            &&& !ev.eos ==> (t.requeue_pending <==> budget > 0 && s.neg_seq is None && came > budget)
        }),
{
}

/// The event of a new token carries it, and counts the tokens that were generated for the caller;
/// what it shows goes behind what was shown before.
pub proof fn events_carry_their_token(s: JobState, h: Hits, heard: Heard, budget: usize)
    requires
        told_next(s, h),
        s.seq.len() <= usize::MAX,
    ensures
        ({
            let (t, ev) = finished(s, h, heard, budget);
            &&& ev.serial == s.serial
            &&& ev.token == Some(h.token)
            &&& ev.new_tokens == s.seq.len() - s.stream_prompt_len - s.heal_offset
            &&& t.emitted_text == s.emitted_text + ev.text
            &&& t.seq == s.seq && t.kv_pos == s.kv_pos
        }),
{
}

} // verus!
