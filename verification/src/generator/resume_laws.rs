//! From where an admitted job goes on, and with which recurrent state.
use vstd::prelude::*;

use crate::cpu_cache::{pushing_keeps_books, slots_ok};
use crate::generator::chain_laws::{chained, lemma_hashed_chain, lemma_placed};
use crate::generator::engine;
use crate::generator::engine::{Admission, CacheKind, Effect, GenState};
use crate::generator::job::JobState;
use crate::generator::laws::balanced;
use crate::paged;
use crate::paged::{Pages, Table};
use crate::recent::lemma_renewed;

verus! {

/// Whether exactly the first `n` pages of a job have a hash.
pub open spec fn leads(p: Pages, block: Seq<i32>, n: int) -> bool {
    &&& 0 <= n <= block.len()
    &&& forall|k: int| 0 <= k < n ==> p.hash[(#[trigger] block[k]) as int] is Some
    &&& forall|k: int| n <= k < block.len() ==> p.hash[(#[trigger] block[k]) as int] is None
}

/// The end of the first `n` pages, or the last prompt token where that comes first.
pub open spec fn end_of_pages(s: JobState, n: int) -> int {
    if 256 * n < s.prompt_len {
        256 * n
    } else {
        s.prompt_len - 1
    }
}

/// Whether an effect restores the state behind the first `n` pages of `tokens` into `slot`.
pub open spec fn restores(e: Effect, slot: i64, tokens: Seq<i64>, n: int) -> bool {
    e == (Effect::RestoreState { slot, key: paged::prefix_key(tokens, n - 1) })
}

/// On a hybrid cache a job that is admitted gets a free slot, which is reset first. It starts
/// behind its first token exactly where a state is restored into that slot: the state kept
/// under the chained hash of just the tokens it skips, up to the last prompt token. Without
/// such an effect it starts at the first token.
pub proof fn jobs_resume_from_a_restored_state(g: GenState, h: GenState, r: Admission)
    requires
        balanced(g),
        chained(g),
        engine::gen_ok(g),
        engine::admissible(g),
        engine::decides(g, h, r),
        r is Admitted,
        g.cache == CacheKind::Hybrid,
    ensures
        h.active.len() == g.active.len() + 1,
        ({
            let j = h.active.last();
            let fx = r->Admitted_effects@;
            &&& j.serial == g.queue[0].serial && j.seq == g.queue[0].seq && j.prompt_len == g.queue[0].prompt_len
            &&& g.slots_free.contains(j.slot)
            &&& fx.len() > 0 && fx[0] == (Effect::ResetSlot { slot: j.slot })
            &&& j.kv_pos > 0 ==> exists|i: int, n: int|
                0 < i < fx.len() && n > 0 && 256 * n <= j.seq.len() && #[trigger] restores(fx[i], j.slot, j.seq, n)
                    && j.kv_pos == end_of_pages(j, n) && g.ckpts.contains(paged::prefix_key(j.seq, n - 1))
            &&& (forall|i: int, key: u128|
                0 <= i < fx.len() ==> #[trigger] fx[i] != (#[trigger] restore_of(j.slot, key))) ==> j.kv_pos == 0
            &&& forall|i: int|
                0 <= i < fx.len() && (#[trigger] fx[i]) is RestoreState ==> fx[i]->RestoreState_slot == j.slot
                    && g.ckpts.contains(fx[i]->RestoreState_key)
            &&& j.hashed_pages == j.kv_pos as int / 256
            &&& j.kv_pos > 0 ==> j.spec_prime_from == j.kv_pos
        }),
{
    let s = g.queue[0];
    assert(engine::waits(s));
    lemma_placed(g);
    let pl = engine::place_of(g, s);
    lemma_no_copies(g, s);
    let fx = r->Admitted_effects@;
    let j = h.active.last();
    assert(g.slots_free.last() == g.slots_free[g.slots_free.len() - 1]);
    let n = pl.matched / 256;
    let key = engine::state_kept(g, pl);
    if key is Some {
        assert(pl.table.pages.hash[pl.block[n - 1] as int] == Some(paged::prefix_key(s.seq, n - 1)));
        assert(restores(fx[1], j.slot, j.seq, n));
        assert(fx[1] == restore_of(j.slot, key->0));
    }
}

/// The effect that restores a state.
pub open spec fn restore_of(slot: i64, key: u128) -> Effect {
    Effect::RestoreState { slot, key }
}

/// A job that is admitted goes on behind as many of its pages as are there already. On a hybrid
/// cache it does so exactly where the state behind them is kept.
pub proof fn jobs_skip_what_is_there(g: GenState, h: GenState, r: Admission, n: int)
    requires
        balanced(g),
        chained(g),
        engine::gen_ok(g),
        engine::admissible(g),
        engine::decides(g, h, r),
        r is Admitted,
        leads(h.table.pages, h.active.last().block, n),
    ensures
        ({
            let j = h.active.last();
            if n > 0 && (g.cache != CacheKind::Hybrid || g.ckpts.contains(paged::prefix_key(j.seq, n - 1))) {
                j.kv_pos == end_of_pages(j, n)
            } else {
                j.kv_pos == 0
            }
        }),
{
    let s = g.queue[0];
    assert(engine::waits(s));
    lemma_placed(g);
    let pl = engine::place_of(g, s);
    let m = pl.matched / 256;
    let p = pl.table.pages;
    assert(h.table.pages == p);
    assert(h.active.last().block == pl.block);
    if m < n {
        assert(p.hash[pl.block[m] as int] is None);
    }
    if n < m {
        assert(p.hash[pl.block[n] as int] is Some);
    }
    if m > 0 {
        assert(p.hash[pl.block[m - 1] as int] == Some(paged::prefix_key(s.seq, m - 1)));
    }
}

proof fn lemma_no_copies(g: GenState, s: JobState)
    requires
        g.cache == CacheKind::Hybrid,
    ensures
        engine::place_of(g, s).effects.len() == 0,
{
    reveal(engine::place_of);
}

/// Up to where the pages of a job get their hashes: its last complete page.
proof fn lemma_hashes_reach(p: Pages, s: JobState, k: int)
    requires
        0 <= k <= s.block.len(),
        0 <= s.kv_pos,
    ensures
        engine::hashed_from(p, s, k).1 >= k,
        engine::hashed_from(p, s, k).1 == s.block.len() || 256 * engine::hashed_from(p, s, k).1 + 256 > s.kv_pos,
        engine::hashed_from(p, s, k).1 <= s.block.len(),
    decreases s.block.len() - k,
{
    if !(256 * k + 256 > s.kv_pos || k >= s.block.len()) {
        let prev = if k == 0 {
            None
        } else {
            engine::page_bytes(p, s.block[k - 1])
        };
        let q = if p.hash[s.block[k] as int] is Some {
            p
        } else {
            paged::hashed(
                p,
                s.block[k],
                vstd::bytes::spec_u128_from_le_bytes(paged::chained(prev, paged::page_tokens(s.seq, k))),
            )
        };
        lemma_hashes_reach(q, s, k + 1);
    }
}

/// Every complete page of a job has a hash once its pages are hashed: the chained hash of the job's
/// tokens up to the page's end.
pub proof fn complete_pages_get_their_hash(g: GenState, j: int, k: int)
    requires
        balanced(g),
        chained(g),
        engine::gen_ok(g),
        0 <= j < g.active.len(),
        0 <= k < g.active[j].block.len(),
        256 * (k + 1) <= g.active[j].kv_pos,
    ensures
        engine::hashed_job(g, j).0.table.pages.hash[g.active[j].block[k] as int] == Some(
            paged::prefix_key(g.active[j].seq, k),
        ),
        engine::hashed_job(g, j).0.active[j].hashed_pages > k,
{
    let s = g.active[j];
    assert(engine::runs(g, s));
    assert(crate::generator::chain_laws::chained_job(g.table.pages, s));
    lemma_hashed_chain(g, j);
    let (p, n) = engine::hashed_from(g.table.pages, s, s.hashed_pages as int);
    lemma_hashes_reach(g.table.pages, s, s.hashed_pages as int);
    assert(k < n);
    let t = JobState { hashed_pages: n as usize, ..s };
    let l = GenState { table: Table { pages: p, ..g.table }, active: g.active.update(j, t), ..g };
    assert(crate::generator::chain_laws::chained_job(p, l.active[j]));
    assert(l.active[j] == t);
    assert(p.hash[t.block[k] as int] is Some);
}

/// Whether a job stands at the end of one of its pages.
pub open spec fn at_page_end(s: JobState) -> bool {
    s.kv_pos >= 256 && s.kv_pos as int % 256 == 0 && s.kv_pos <= 256 * s.block.len()
}

/// The recurrent state of a job is kept exactly when the job stands at the end of one of its
/// pages: under the chained hash of all its tokens up to there, out of the job's own slot. Where
/// that state is kept already, nothing is copied, and it counts as the last one used. Where there
/// are as many as may be, the one used longest ago goes, and no other.
pub proof fn states_are_kept_at_page_ends(g: GenState, j: int)
    requires
        balanced(g),
        chained(g),
        engine::gen_ok(g),
        0 <= j < g.active.len(),
        g.cache == CacheKind::Hybrid,
        g.ckpts.no_duplicates(),
        g.ckpt_cap >= 1,
    ensures
        ({
            let s = g.active[j];
            let (h, fx) = engine::hashed_job(g, j);
            let key = paged::prefix_key(s.seq, s.kv_pos as int / 256 - 1);
            &&& !at_page_end(s) ==> fx.len() == 0 && h.ckpts == g.ckpts
            &&& at_page_end(s) ==> h.ckpts.len() > 0 && h.ckpts.last() == key
            &&& at_page_end(s) && g.ckpts.contains(key) ==> fx.len() == 0 && h.ckpts.len() == g.ckpts.len() && forall|x: u128|
                #[trigger] h.ckpts.contains(x) <==> g.ckpts.contains(x)
            &&& at_page_end(s) && !g.ckpts.contains(key) ==> fx.len() > 0 && fx[0] == (Effect::SaveState { slot: s.slot, key })
            &&& at_page_end(s) && !g.ckpts.contains(key) && g.ckpts.len() < g.ckpt_cap ==> fx.len() == 1 && h.ckpts
                == g.ckpts.push(key)
            &&& at_page_end(s) && !g.ckpts.contains(key) && g.ckpts.len() >= g.ckpt_cap ==> fx.len() == 2 && fx[1] == (
            Effect::DropState { key: g.ckpts[0] }) && h.ckpts == g.ckpts.drop_first().push(key)
        }),
{
    let s = g.active[j];
    assert(engine::runs(g, s));
    let (p, n) = engine::hashed_from(g.table.pages, s, s.hashed_pages as int);
    let t = JobState { hashed_pages: n as usize, ..s };
    let k = s.kv_pos as int / 256 - 1;
    if at_page_end(s) {
        assert(k < s.block.len());
        complete_pages_get_their_hash(g, j, k);
        let key = paged::prefix_key(s.seq, k);
        assert(engine::boundary_hash(p, t) == Some(key));
        crate::recent::lemma_renewed(g.ckpts, key);
        assert(g.ckpts.push(key).drop_first() =~= if g.ckpts.len() > 0 {
            g.ckpts.drop_first().push(key)
        } else {
            seq![]
        });
    } else {
        assert(engine::boundary_hash(p, t) is None);
    }
}

/// Pages of a prompt that are not on the device come back from host memory as far as they are
/// there, one behind the other: each out of the slot that holds the chained hash of the prompt up
/// to the page's end, into the job's own page, which has that hash from then on.
pub proof fn pages_come_back_from_the_host(
    p: Pages,
    t: engine::Tier,
    seq: Seq<i64>,
    block: Seq<i32>,
    k: int,
)
    requires
        0 <= k,
        seq.len() / 256 <= block.len(),
        forall|i: int| 0 <= i < block.len() ==> 0 <= #[trigger] block[i] < p.hash.len(),
        forall|i: int, j: int| 0 <= i < j < block.len() ==> block[i] != block[j],
    ensures
        ({
            let (q, u, n, fx) = engine::fetched(p, t, seq, block, k, paged::prefix_bytes(seq, k));
            &&& n >= k && fx.len() == n - k
            &&& u.slots.by_hash == t.slots.by_hash
            &&& q.hash.len() == p.hash.len()
            &&& forall|m: int|
                k <= m < n ==> 256 * (m + 1) <= seq.len() && t.slots.by_hash.contains_key(paged::prefix_key(seq, m))
                    && #[trigger] fx[m - k] == (Effect::CopyIn {
                    slot: t.slots.by_hash[paged::prefix_key(seq, m)],
                    page: block[m],
                })
            &&& forall|m: int| k <= m < n ==> q.hash[(#[trigger] block[m]) as int] == Some(paged::prefix_key(seq, m))
            &&& forall|m: int| 0 <= m < k && m < block.len() ==> q.hash[(#[trigger] block[m]) as int] == p.hash[block[m] as int]
            &&& 256 * (n + 1) > seq.len() || !t.slots.by_hash.contains_key(paged::prefix_key(seq, n))
        }),
    decreases seq.len() - 256 * k,
{
    let prev = paged::prefix_bytes(seq, k);
    let bytes = paged::chained(prev, paged::page_tokens(seq, k));
    let h = vstd::bytes::spec_u128_from_le_bytes(bytes);
    assert(paged::prefix_bytes(seq, k + 1) == Some(bytes));
    assert(h == paged::prefix_key(seq, k));
    if 256 * k + 256 <= seq.len() && t.slots.by_hash.contains_key(h) {
        let t1 = engine::Tier {
            slots: crate::cpu_cache::used(t.slots, h),
            counts: ((t.counts.0 + 1) as u64, t.counts.1),
        };
        let p1 = paged::hashed(p, block[k], h);
        pages_come_back_from_the_host(p1, t1, seq, block, k + 1);
        let (q, u, n, fx) = engine::fetched(p1, t1, seq, block, k + 1, Some(bytes));
        let whole = engine::fetched(p, t, seq, block, k, prev);
        let all = seq![Effect::CopyIn { slot: t.slots.by_hash[h], page: block[k] }] + fx;
        assert(whole.3 == all);
        assert forall|m: int| k <= m < n implies 256 * (m + 1) <= seq.len() && t.slots.by_hash.contains_key(
            paged::prefix_key(seq, m),
        ) && #[trigger] all[m - k] == (Effect::CopyIn {
            slot: t.slots.by_hash[paged::prefix_key(seq, m)],
            page: block[m],
        }) by {
            if m > k {
                assert(all[m - k] == fx[m - (k + 1)]);
            }
        }
        assert forall|m: int| k <= m < n implies q.hash[(#[trigger] block[m]) as int] == Some(paged::prefix_key(seq, m)) by {
            if m == k {
                assert(p1.hash[block[k] as int] == Some(h));
            }
        }
        assert forall|m: int| 0 <= m < k && m < block.len() implies q.hash[(#[trigger] block[m]) as int]
            == p.hash[block[m] as int] by {
            assert(block[m] != block[k]);
        }
    }
}

/// A kept state that is restored becomes the one that was used last, and no state is given up for
/// it; where none is restored, the kept ones stay as they are.
pub proof fn restored_states_are_used_last(g: GenState, h: GenState, r: Admission)
    requires
        balanced(g),
        chained(g),
        engine::gen_ok(g),
        engine::admissible(g),
        engine::decides(g, h, r),
        r is Admitted,
        g.cache == CacheKind::Hybrid,
        g.ckpts.no_duplicates(),
    ensures
        ({
            let fx = r->Admitted_effects@;
            &&& forall|i: int|
                0 <= i < fx.len() && (#[trigger] fx[i]) is RestoreState ==> h.ckpts.len() > 0 && h.ckpts.last()
                    == fx[i]->RestoreState_key
            &&& (forall|i: int| 0 <= i < fx.len() ==> !((#[trigger] fx[i]) is RestoreState)) ==> h.ckpts == g.ckpts
            &&& h.ckpts.len() == g.ckpts.len()
            &&& forall|x: u128| #[trigger] h.ckpts.contains(x) <==> g.ckpts.contains(x)
        }),
{
    let s = g.queue[0];
    assert(engine::waits(s));
    let pl = engine::place_of(g, s);
    lemma_no_copies(g, s);
    let fx = r->Admitted_effects@;
    let key = engine::state_kept(g, pl);
    if key is Some {
        lemma_renewed(g.ckpts, key->0);
        assert(fx[1] is RestoreState);
    }
}

/// A page that leaves the pool is copied to the host, unless a page of the same tokens is there
/// already: then nothing is copied. Either way its tokens are found there.
pub proof fn pages_go_to_the_host(t: engine::Tier, evicted: Seq<(i32, u128)>)
    requires
        slots_ok(t.slots),
        evicted.len() > 0,
    ensures
        ({
            let (before, fx0) = engine::sent(t, evicted.drop_last());
            let (after, fx) = engine::sent(t, evicted);
            let (page, h) = evicted.last();
            &&& slots_ok(after.slots)
            &&& after.slots.by_hash.contains_key(h)
            &&& before.slots.by_hash.contains_key(h) ==> fx == fx0 && after.slots.by_hash == before.slots.by_hash
            &&& !before.slots.by_hash.contains_key(h) ==> fx == fx0.push(
                Effect::CopyOut { page, slot: after.slots.by_hash[h] },
            )
        }),
    decreases evicted.len(),
{
    let less = evicted.drop_last();
    if less.len() > 0 {
        pages_go_to_the_host(t, less);
    }
    let before = engine::sent(t, less).0;
    pushing_keeps_books(before.slots, evicted.last().1);
}

/// A job that is admitted is the one that waited longest. The others wait and run as before, and
/// where drafts are looked up in what was generated a matcher is started for it.
pub proof fn the_longest_waiting_job_goes_in(g: GenState, h: GenState, r: Admission)
    requires
        g.queue.len() > 0,
        engine::decides(g, h, r),
        r is Admitted,
    ensures
        h.active.len() == g.active.len() + 1,
        h.active.drop_last() == g.active,
        h.active.last().serial == g.queue[0].serial,
        h.active.last().started_emitted,
        g.queue == seq![g.queue[0]] + h.queue,
        g.ngram_match_min > 0 ==> r->Admitted_effects@.last() == (Effect::StartMatcher { serial: g.queue[0].serial }),
        r->Admitted_event is Some <==> !g.queue[0].started_emitted,
{
    assert(h.active.drop_last() =~= g.active);
    assert(g.queue =~= seq![g.queue[0]] + h.queue);
}

} // verus!
