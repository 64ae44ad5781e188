//! What every run of the generator keeps: no page is lost, and none is given twice.
use vstd::bytes::spec_u128_from_le_bytes;
use vstd::prelude::*;
use crate::cpu_cache::used;
use crate::generator::engine;
use crate::generator::engine::{GenState, Tier};
use crate::generator::job;
use crate::generator::job::JobState;
use crate::page_laws;
use crate::page_laws::{lemma_times, lemma_times_concat, listed, sound, times};
use crate::paged;
use crate::paged::{Pages, Table};

verus! {

/// How often the jobs hold a page.
pub open spec fn held(jobs: Seq<JobState>, id: int) -> int
    decreases jobs.len(),
{
    if jobs.len() == 0 {
        0
    } else {
        held(jobs.drop_last(), id) + times(jobs.last().block, id) + times(jobs.last().neg_block, id)
    }
}

/// A page without a hash, which may still be written, has one holder at most.
pub open spec fn unshared(p: Pages) -> bool {
    forall|id: int| 0 <= id < p.rc.len() && #[trigger] p.hash[id] is None ==> p.rc[id] <= 1
}

/// The page table is sound, every page has as many references as the running jobs hold, and
/// only pages with a hash are shared.
pub open spec fn balanced(g: GenState) -> bool {
    &&& sound(g.table.pages)
    &&& unshared(g.table.pages)
    &&& g.table.pages.rc.len() == g.table.size
    &&& forall|id: int| 0 <= id < g.table.size ==> #[trigger] g.table.pages.rc[id] == held(g.active, id)
}

pub(super) proof fn lemma_held(jobs: Seq<JobState>, id: int)
    ensures
        held(jobs, id) >= 0,
        forall|j: int|
            0 <= j < jobs.len() ==> times((#[trigger] jobs[j]).block, id) + times(jobs[j].neg_block, id) <= held(
                jobs,
                id,
            ),
    decreases jobs.len(),
{
    if jobs.len() > 0 {
        let t = jobs.drop_last();
        lemma_held(t, id);
        lemma_times(jobs.last().block, id);
        lemma_times(jobs.last().neg_block, id);
        assert forall|j: int| 0 <= j < jobs.len() implies times((#[trigger] jobs[j]).block, id) + times(
            jobs[j].neg_block,
            id,
        ) <= held(jobs, id) by {
            if j < t.len() {
                assert(t[j] == jobs[j]);
            }
        }
    }
}

proof fn lemma_held_remove(jobs: Seq<JobState>, j: int, id: int)
    requires
        0 <= j < jobs.len(),
    ensures
        held(jobs.remove(j), id) == held(jobs, id) - times(jobs[j].block, id) - times(jobs[j].neg_block, id),
    decreases jobs.len(),
{
    let t = jobs.drop_last();
    if j == jobs.len() - 1 {
        assert(jobs.remove(j) =~= t);
    } else {
        lemma_held_remove(t, j, id);
        assert(jobs.remove(j).drop_last() =~= t.remove(j));
        assert(jobs.remove(j).last() == jobs.last());
        assert(t[j] == jobs[j]);
    }
}

/// Jobs that hold the same pages hold them as often.
proof fn lemma_held_same(a: Seq<JobState>, b: Seq<JobState>, id: int)
    requires
        a.len() == b.len(),
        forall|j: int| 0 <= j < a.len() ==> (#[trigger] a[j]).block == b[j].block && a[j].neg_block == b[j].neg_block,
    ensures
        held(a, id) == held(b, id),
    decreases a.len(),
{
    if a.len() > 0 {
        let x = a.drop_last();
        let y = b.drop_last();
        assert forall|j: int| 0 <= j < x.len() implies (#[trigger] x[j]).block == y[j].block && x[j].neg_block
            == y[j].neg_block by {
            assert(x[j] == a[j] && y[j] == b[j]);
        }
        lemma_held_same(x, y, id);
        assert(a[a.len() - 1].block == b[b.len() - 1].block);
    }
}

pub(super) proof fn lemma_taken_times(p: Pages, n: nat, id: int)
    requires
        sound(p),
        n <= paged::spare(p),
        0 <= id < p.rc.len(),
    ensures
        paged::taken_n(p, n).0.rc[id] == p.rc[id] + times(paged::taken_n(p, n).1, id),
{
    page_laws::taking_many_keeps_sound(p, n);
    let (q, ids) = paged::taken_n(p, n);
    lemma_times(ids, id);
    if listed(ids, id) {
        let i = choose|i: int| 0 <= i < ids.len() && #[trigger] ids[i] == id;
        assert(p.rc[ids[i] as int] == 0);
    }
}

pub(super) proof fn lemma_acquired_times(p: Pages, ids: Seq<i32>, most: int, id: int)
    requires
        sound(p),
        ids.len() <= most,
        forall|i: int|
            0 <= i < ids.len() ==> 0 <= #[trigger] ids[i] < p.rc.len() && p.hash[ids[i] as int] is Some,
        forall|i: int| 0 <= i < p.rc.len() ==> #[trigger] p.rc[i] + most <= u32::MAX,
        0 <= id < p.rc.len(),
    ensures
        sound(paged::acquired_all(p, ids)),
        paged::acquired_all(p, ids).rc.len() == p.rc.len(),
        paged::acquired_all(p, ids).hash == p.hash,
        paged::acquired_all(p, ids).rc[id] == p.rc[id] + times(ids, id),
    decreases ids.len(),
{
    if ids.len() > 0 {
        let prev = ids.drop_last();
        assert forall|i: int| 0 <= i < prev.len() implies 0 <= #[trigger] prev[i] < p.rc.len() && p.hash[prev[i] as int] is Some by {
            assert(prev[i] == ids[i]);
        }
        let last = ids[ids.len() - 1];
        lemma_acquired_times(p, prev, most, id);
        lemma_acquired_times(p, prev, most, last as int);
        lemma_times(prev, last as int);
        assert(p.rc[last as int] + most <= u32::MAX);
        let q = paged::acquired_all(p, prev);
        page_laws::sharing_keeps_sound(q, last);
    }
}

pub(super) proof fn lemma_released_times(p: Pages, ids: Seq<i32>, id: int)
    requires
        sound(p),
        forall|i: int| 0 <= i < ids.len() ==> 0 <= #[trigger] ids[i] < p.rc.len(),
        forall|x: int| 0 <= x < p.rc.len() ==> times(ids, x) <= #[trigger] p.rc[x],
        0 <= id < p.rc.len(),
    ensures
        sound(paged::released(p, ids)),
        paged::released(p, ids).rc.len() == p.rc.len(),
        paged::released(p, ids).rc[id] == p.rc[id] - times(ids, id),
        paged::released(p, ids).hash == p.hash,
    decreases ids.len(),
{
    if ids.len() > 0 {
        let prev = ids.drop_last();
        let last = ids[ids.len() - 1];
        assert forall|i: int| 0 <= i < prev.len() implies 0 <= #[trigger] prev[i] < p.rc.len() by {
            assert(prev[i] == ids[i]);
        }
        assert forall|x: int| 0 <= x < p.rc.len() implies times(prev, x) <= #[trigger] p.rc[x] by {
            assert(times(ids, x) <= p.rc[x]);
        }
        lemma_released_times(p, prev, id);
        lemma_released_times(p, prev, last as int);
        assert(times(ids, last as int) <= p.rc[last as int]);
        page_laws::releasing_keeps_sound(paged::released(p, prev), last);
    }
}

/// When the running jobs' pages are theirs and a job leaves, its pages come back: the table
/// stays sound, and every page has as many references as the jobs that stay hold.
pub proof fn leaving_keeps_balance(g: GenState, i: int)
    requires
        balanced(g),
        engine::gen_ok(g),
        0 <= i < g.active.len(),
    ensures
        balanced(engine::freed_job(GenState { active: g.active.remove(i), ..g }, g.active[i]).0),
{
    let s = g.active[i];
    let p = g.table.pages;
    assert(engine::runs(g, s));
    let h = GenState { active: g.active.remove(i), ..g };
    let (k, fx) = engine::freed_job(h, s);
    let q = paged::released(p, s.block);
    let r = paged::released(q, s.neg_block);
    assert forall|x: int| 0 <= x < p.rc.len() implies times(s.block, x) <= #[trigger] p.rc[x] by {
        lemma_held(g.active, x);
        lemma_times(s.neg_block, x);
        assert(p.rc[x] == held(g.active, x));
    }
    if p.rc.len() > 0 {
        lemma_released_times(p, s.block, 0);
        assert forall|x: int| 0 <= x < q.rc.len() implies times(s.neg_block, x) <= #[trigger] q.rc[x] by {
            lemma_released_times(p, s.block, x);
            lemma_held(g.active, x);
            assert(p.rc[x] == held(g.active, x));
        }
        lemma_released_times(q, s.neg_block, 0);
    } else {
        assert(s.block.len() == 0) by {
            if s.block.len() > 0 {
                assert(0 <= s.block[0] < g.table.size);
            }
        }
        assert(s.neg_block.len() == 0) by {
            if s.neg_block.len() > 0 {
                assert(0 <= s.neg_block[0] < g.table.size);
            }
        }
    }
    assert forall|id: int| 0 <= id < r.rc.len() && #[trigger] r.hash[id] is None implies r.rc[id] <= 1 by {
        lemma_released_times(p, s.block, id);
        lemma_released_times(q, s.neg_block, id);
        lemma_times(s.block, id);
        lemma_times(s.neg_block, id);
        assert(p.hash[id] is None);
    }
    assert forall|id: int| 0 <= id < k.table.size implies #[trigger] k.table.pages.rc[id] == held(k.active, id) by {
        lemma_released_times(p, s.block, id);
        lemma_released_times(q, s.neg_block, id);
        lemma_held_remove(g.active, i, id);
        assert(p.rc[id] == held(g.active, id));
    }
}

/// Reaping keeps the balance.
pub proof fn reaping_keeps_balance(g: GenState, i: int)
    requires
        balanced(g),
        engine::gen_ok(g),
        0 <= i,
    ensures
        balanced(engine::reaped_from(g, i).0),
    decreases g.active.len() - i,
{
    if i < g.active.len() {
        let s = g.active[i];
        assert(engine::runs(g, s));
        if s.done || s.requeue_pending {
            let g1 = GenState { active: g.active.remove(i), ..g };
            let (h, fx) = engine::freed_job(g1, s);
            leaving_keeps_balance(g, i);
            let k = if s.done {
                h
            } else {
                GenState { queue: seq![job::requeued(s)] + h.queue, ..h }
            };
            lemma_freed_ok(g, i);
            assert(balanced(k));
            assert(engine::gen_ok(k)) by {
                assert forall|m: int| 0 <= m < k.queue.len() implies engine::waits(#[trigger] k.queue[m]) by {
                    if !s.done && m > 0 {
                        assert(engine::waits(h.queue[m - 1]));
                    } else if s.done {
                        assert(engine::waits(h.queue[m]));
                    }
                }
                assert forall|m: int| 0 <= m < k.active.len() implies engine::runs(k, #[trigger] k.active[m]) by {
                    assert(engine::runs(h, h.active[m]));
                }
            }
            reaping_keeps_balance(k, i);
        } else {
            reaping_keeps_balance(g, i + 1);
        }
    }
}

pub(super) proof fn lemma_freed_ok(g: GenState, i: int)
    requires
        balanced(g),
        engine::gen_ok(g),
        0 <= i < g.active.len(),
    ensures
        engine::gen_ok(engine::freed_job(GenState { active: g.active.remove(i), ..g }, g.active[i]).0),
{
    let s = g.active[i];
    assert(engine::runs(g, s));
    let g1 = GenState { active: g.active.remove(i), ..g };
    let (h, fx) = engine::freed_job(g1, s);
    leaving_keeps_balance(g, i);
    assert(paged::ranged(h.table.pages));
    if s.draft_block.len() > 0 && g.spec == engine::SpecKind::Draft {
        lemma_released_ranged(g.draft->0.pages, s.draft_block);
    }
    assert forall|m: int| 0 <= m < h.active.len() implies engine::runs(h, #[trigger] h.active[m]) by {
        let x = if m < i {
            m
        } else {
            m + 1
        };
        assert(engine::runs(g, g.active[x]));
    }
}

proof fn lemma_released_ranged(p: Pages, ids: Seq<i32>)
    requires
        paged::ranged(p),
        forall|i: int| 0 <= i < ids.len() ==> 0 <= #[trigger] ids[i] < p.rc.len(),
    ensures
        paged::ranged(paged::released(p, ids)),
        paged::released(p, ids).rc.len() == p.rc.len(),
    decreases ids.len(),
{
    if ids.len() > 0 {
        let prev = ids.drop_last();
        assert forall|i: int| 0 <= i < prev.len() implies 0 <= #[trigger] prev[i] < p.rc.len() by {
            assert(prev[i] == ids[i]);
        }
        lemma_released_ranged(p, prev);
        let q = paged::released(p, prev);
        let id = ids[ids.len() - 1];
        let r = paged::released_one(q, id);
        assert forall|i: int| 0 <= i < r.free.len() implies 0 <= #[trigger] r.free[i] < r.rc.len() by {
            if i < q.free.len() {
                assert(r.free[i] == q.free[i]);
            }
        }
        assert forall|i: int| 0 <= i < r.reclaimable.len() implies 0 <= #[trigger] r.reclaimable[i] < r.rc.len() by {
            if i < q.reclaimable.len() {
                assert(r.reclaimable[i] == q.reclaimable[i]);
            }
        }
    }
}

pub(super) proof fn lemma_taken_unshared(p: Pages, n: nat)
    requires
        sound(p),
        unshared(p),
        n <= paged::spare(p),
    ensures
        unshared(paged::taken_n(p, n).0),
{
    page_laws::taking_many_keeps_sound(p, n);
    let (q, ids) = paged::taken_n(p, n);
    assert forall|id: int| 0 <= id < q.rc.len() && #[trigger] q.hash[id] is None implies q.rc[id] <= 1 by {
        if listed(ids, id) {
            let i = choose|i: int| 0 <= i < ids.len() && #[trigger] ids[i] == id;
            assert(q.rc[ids[i] as int] == 1);
        } else {
            assert(q.rc[id] == p.rc[id]);
            assert(p.hash[id] is None);
        }
    }
}

/// A request for pages adds one reference for each time a page is given; the pages that are
/// not shared are new to their holder.
pub(super) proof fn lemma_requested(t: Table, tokens: Seq<i64>, reserve: int)
    requires
        sound(t.pages),
        unshared(t.pages),
        reserve >= 0,
        paged::page_count(tokens.len() + reserve) <= paged::spare(t.pages),
        t.sharing ==> forall|i: int|
            0 <= i < t.pages.rc.len() ==> #[trigger] t.pages.rc[i] + tokens.len() / 256 <= u32::MAX,
    ensures
        ({
            let (u, block, matched) = paged::requested(t, tokens, reserve);
            &&& sound(u.pages)
            &&& unshared(u.pages)
            &&& u.pages.rc.len() == t.pages.rc.len()
            &&& forall|id: int|
                0 <= id < t.pages.rc.len() ==> #[trigger] u.pages.rc[id] == t.pages.rc[id] + times(block, id)
            &&& matched % 256 == 0
            &&& 0 <= matched / 256 <= block.len()
            &&& block.len() == paged::page_count(tokens.len() + reserve)
            &&& unused(u.pages, block, matched / 256)
        }),
{
    let need = paged::page_count(tokens.len() + reserve);
    let (u, block, matched) = paged::requested(t, tokens, reserve);
    if t.sharing {
        let shared = paged::hits(t.pages, tokens);
        let most = tokens.len() as int / 256;
        paged::lemma_hit_count(t.pages, tokens, 0);
        assert forall|i: int| 0 <= i < shared.len() implies 0 <= #[trigger] shared[i] < t.pages.rc.len()
            && t.pages.hash[shared[i] as int] is Some by {
            page_laws::shared_pages_hold_the_prefix(t.pages, tokens, i);
            assert(t.pages.by_hash.contains_key(paged::prefix_key(tokens, i)));
        }
        paged::lemma_acquired_all(t.pages, shared, most);
        let q = paged::acquired_all(t.pages, shared);
        let n = (need - shared.len()) as nat;
        if t.pages.rc.len() > 0 {
            lemma_acquired_times(t.pages, shared, most, 0);
        } else if shared.len() > 0 {
            assert(0 <= shared[0] < t.pages.rc.len());
        }
        assert(q.hash == t.pages.hash) by {
            if t.pages.rc.len() == 0 {
                assert(shared =~= seq![]);
            }
        }
        assert(sound(q)) by {
            if t.pages.rc.len() == 0 {
                assert(shared =~= seq![]);
            }
        }
        assert forall|id: int| 0 <= id < q.rc.len() && #[trigger] q.hash[id] is None implies q.rc[id] <= 1 by {
            lemma_acquired_times(t.pages, shared, most, id);
            lemma_times(shared, id);
            assert(t.pages.hash[id] is None);
            if listed(shared, id) {
                let i = choose|i: int| 0 <= i < shared.len() && #[trigger] shared[i] == id;
                assert(t.pages.hash[shared[i] as int] is Some);
            }
        }
        page_laws::taking_many_keeps_sound(q, n);
        lemma_taken_unshared(q, n);
        let fresh = paged::taken_n(q, n).1;
        assert forall|id: int| 0 <= id < t.pages.rc.len() implies #[trigger] u.pages.rc[id] == t.pages.rc[id] + times(
            block,
            id,
        ) by {
            lemma_acquired_times(t.pages, shared, most, id);
            lemma_taken_times(q, n, id);
            lemma_times_concat(shared, fresh, id);
        }
        assert forall|i: int| shared.len() <= i < block.len() implies #[trigger] block[i] == fresh[i - shared.len()] by {}
    } else {
        page_laws::taking_many_keeps_sound(t.pages, need as nat);
        lemma_taken_unshared(t.pages, need as nat);
        assert forall|id: int| 0 <= id < t.pages.rc.len() implies #[trigger] u.pages.rc[id] == t.pages.rc[id] + times(
            block,
            id,
        ) by {
            lemma_taken_times(t.pages, need as nat, id);
        }
    }
}

/// From `k` on, the pages of a list are held, have no hash, and differ.
pub open spec fn unused(p: Pages, block: Seq<i32>, k: int) -> bool {
    &&& forall|i: int|
        k <= i < block.len() ==> 0 <= #[trigger] block[i] < p.rc.len() && p.rc[block[i] as int] > 0
            && p.hash[block[i] as int] is None
    &&& forall|i: int, j: int| k <= i < j < block.len() ==> #[trigger] block[i] != #[trigger] block[j]
}

proof fn lemma_fetched(p: Pages, t: Tier, tokens: Seq<i64>, block: Seq<i32>, k: int, prev: Option<Seq<u8>>)
    requires
        sound(p),
        unshared(p),
        unused(p, block, k),
        k >= 0,
        tokens.len() <= 256 * block.len(),
    ensures
        sound(engine::fetched(p, t, tokens, block, k, prev).0),
        unshared(engine::fetched(p, t, tokens, block, k, prev).0),
        engine::fetched(p, t, tokens, block, k, prev).0.rc == p.rc,
    decreases tokens.len() - 256 * k,
{
    let bytes = paged::chained(prev, paged::page_tokens(tokens, k));
    let h = spec_u128_from_le_bytes(bytes);
    if !(k < 0 || 256 * k + 256 > tokens.len() || !t.slots.by_hash.contains_key(h)) {
        let u = Tier { slots: used(t.slots, h), counts: ((t.counts.0 + 1) as u64, t.counts.1) };
        assert(k < block.len());
        let id = block[k];
        page_laws::hashing_keeps_sound(p, id, h);
        let q = paged::hashed(p, id, h);
        assert forall|x: int| 0 <= x < q.rc.len() && #[trigger] q.hash[x] is None implies q.rc[x] <= 1 by {
            assert(p.hash[x] is None);
        }
        assert forall|i: int| k + 1 <= i < block.len() implies 0 <= #[trigger] block[i] < q.rc.len()
            && q.rc[block[i] as int] > 0 && q.hash[block[i] as int] is None by {
            assert(block[k] != block[i]);
        }
        lemma_fetched(q, u, tokens, block, k + 1, Some(bytes));
    }
}

/// When a job is admitted, the pages it is given are counted as its own, and the balance holds.
pub proof fn admitting_keeps_balance(g: GenState)
    requires
        balanced(g),
        engine::gen_ok(g),
        engine::admissible(g),
        engine::verdict(g) is Admit,
        !engine::draft_lacks(g, g.queue[0]),
    ensures
        balanced(engine::admitted(g)),
{
    let s = g.queue[0];
    assert(engine::waits(s));
    reveal(engine::place_of);
    let pl = engine::place_of(g, s);
    let h = engine::admitted(g);
    let reserve = job::gen_reserve_of(s);
    assert(s.seq.len() == s.prompt_len);
    let neg = engine::neg_need(s);
    let p = g.table.pages;
    let (p1, neg_block) = if neg > 0 {
        paged::taken_n(p, neg as nat)
    } else {
        (p, seq![])
    };
    if neg > 0 {
        page_laws::taking_many_keeps_sound(p, neg as nat);
        lemma_taken_unshared(p, neg as nat);
    }
    let t1 = Table { pages: p1, ..g.table };
    if g.table.sharing {
        assert forall|i: int| 0 <= i < p1.rc.len() implies #[trigger] p1.rc[i] + s.seq.len() / 256 <= u32::MAX by {
            assert(p.rc[i] + s.seq.len() / 256 <= u32::MAX);
            if neg > 0 {
                lemma_taken_times(p, neg as nat, i);
                lemma_times(neg_block, i);
                if listed(neg_block, i) {
                    let x = choose|x: int| 0 <= x < neg_block.len() && #[trigger] neg_block[x] == i;
                    assert(p1.rc[neg_block[x] as int] == 1);
                }
            }
        }
    }
    lemma_requested(t1, s.seq, reserve);
    let (t2, block, matched) = paged::requested(t1, s.seq, reserve);
    match g.tier {
        None => {},
        Some(tier) => {
            let p3 = Pages { evicted: seq![], ..t2.pages };
            assert(sound(p3)) by {
                assert(paged::ranged(p3));
            }
            if g.cache == engine::CacheKind::Plain {
                let k = matched / 256;
                let prev = if k > 0 {
                    engine::page_bytes(p3, block[k - 1])
                } else {
                    None
                };
                assert(s.seq.len() <= 256 * block.len());
                lemma_fetched(p3, engine::sent(tier, t2.pages.evicted).0, s.seq, block, k, prev);
            }
        },
    }
    assert(pl.table.pages.rc == t2.pages.rc);
    assert(pl.block == block && pl.neg_block == neg_block);
    assert forall|id: int| 0 <= id < h.table.size implies #[trigger] h.table.pages.rc[id] == held(h.active, id) by {
        assert(h.active.drop_last() =~= g.active);
        assert(h.active.last().block == block && h.active.last().neg_block == neg_block);
        assert(p.rc[id] == held(g.active, id));
        assert(t2.pages.rc[id] == p1.rc[id] + times(block, id));
        if neg > 0 {
            lemma_taken_times(p, neg as nat, id);
        }
    }
}

pub(super) proof fn lemma_hashed_from(p: Pages, s: JobState, k: int)
    requires
        sound(p),
        unshared(p),
        k >= 0,
        forall|i: int| 0 <= i < s.block.len() ==> 0 <= #[trigger] s.block[i] < p.rc.len() && p.rc[s.block[i] as int] > 0,
    ensures
        sound(engine::hashed_from(p, s, k).0),
        unshared(engine::hashed_from(p, s, k).0),
        engine::hashed_from(p, s, k).0.rc == p.rc,
    decreases s.block.len() - k,
{
    if !(k < 0 || 256 * k + 256 > s.kv_pos || k >= s.block.len()) {
        let prev = if k == 0 {
            None
        } else {
            engine::page_bytes(p, s.block[k - 1])
        };
        let id = s.block[k];
        let h = spec_u128_from_le_bytes(paged::chained(prev, paged::page_tokens(s.seq, k)));
        if p.hash[id as int] is Some {
            lemma_hashed_from(p, s, k + 1);
        } else {
            page_laws::hashing_keeps_sound(p, id, h);
            let q = paged::hashed(p, id, h);
            assert forall|x: int| 0 <= x < q.rc.len() && #[trigger] q.hash[x] is None implies q.rc[x] <= 1 by {
                assert(p.hash[x] is None);
            }
            lemma_hashed_from(q, s, k + 1);
        }
    }
}

/// Giving complete pages their hashes keeps the balance.
pub proof fn hashing_keeps_balance(g: GenState, n: nat)
    requires
        balanced(g),
        engine::gen_ok(g),
        n <= g.active.len(),
    ensures
        balanced(engine::hashed_jobs(g, n).0),
        engine::hashed_jobs(g, n).0.active.len() == g.active.len(),
        forall|j: int|
            0 <= j < g.active.len() ==> (#[trigger] engine::hashed_jobs(g, n).0.active[j]).block == g.active[j].block
                && engine::hashed_jobs(g, n).0.active[j].neg_block == g.active[j].neg_block,
        engine::hashed_jobs(g, n).0.table.size == g.table.size,
    decreases n,
{
    if n > 0 {
        let m = (n - 1) as nat;
        hashing_keeps_balance(g, m);
        let h = engine::hashed_jobs(g, m).0;
        let k = engine::hashed_jobs(g, n).0;
        let s = h.active[n - 1];
        let p = h.table.pages;
        assert(engine::runs(g, g.active[n - 1]));
        assert(s.block == g.active[n - 1].block);
        assert forall|i: int| 0 <= i < s.block.len() implies 0 <= #[trigger] s.block[i] < p.rc.len()
            && p.rc[s.block[i] as int] > 0 by {
            assert(0 <= g.active[n - 1].block[i] < g.table.size);
            let id = s.block[i] as int;
            lemma_times(s.block, id);
            lemma_times(s.neg_block, id);
            lemma_held(h.active, id);
            assert(p.rc[id] == held(h.active, id));
        }
        lemma_hashed_from(p, s, s.hashed_pages as int);
        assert forall|id: int| 0 <= id < k.table.size implies #[trigger] k.table.pages.rc[id] == held(k.active, id) by {
            lemma_held_same(k.active, h.active, id);
            assert(p.rc[id] == held(h.active, id));
        }
    }
}

/// A step that leaves the table and every job's pages as they were keeps the balance.
pub proof fn steps_in_place_keep_balance(g: GenState, h: GenState)
    requires
        balanced(g),
        h.table == g.table,
        h.active.len() == g.active.len(),
        forall|j: int|
            0 <= j < h.active.len() ==> (#[trigger] h.active[j]).block == g.active[j].block && h.active[j].neg_block
                == g.active[j].neg_block,
    ensures
        balanced(h),
{
    assert forall|id: int| 0 <= id < h.table.size implies #[trigger] h.table.pages.rc[id] == held(h.active, id) by {
        lemma_held_same(h.active, g.active, id);
        assert(g.table.pages.rc[id] == held(g.active, id));
    }
}

/// A job that is queued again keeps its tokens and all that its caller saw of it, and has its whole
/// budget before it.
pub proof fn requeued_jobs_go_on(s: JobState)
    ensures
        job::requeued(s).serial == s.serial,
        job::requeued(s).seq == s.seq,
        job::requeued(s).stream_prompt_len == s.stream_prompt_len,
        job::requeued(s).new_tokens == s.new_tokens,
        job::requeued(s).emitted_text == s.emitted_text,
        job::requeued(s).gen_text == s.gen_text,
        job::requeued(s).filters == s.filters,
        job::requeued(s).started_emitted == s.started_emitted,
        job::requeued(s).prompt_len == s.seq.len() as i64,
        job::job_ok(s) && s.seq.len() <= i64::MAX ==> job::lap_of(job::requeued(s)) == 0,
{
}

/// A new generator is in balance.
pub proof fn new_generators_are_balanced(g: GenState, n: nat)
    requires
        n <= i32::MAX,
        g.table.size == n,
        g.active.len() == 0,
        g.table.pages == paged::new_pages(n),
    ensures
        balanced(g),
{
    page_laws::new_table_is_sound(n);
}

/// The pages that running jobs hold.
pub open spec fn job_pages(g: GenState) -> Set<int> {
    vstd::set_lib::set_int_range(0, g.table.size).filter(|id: int| held(g.active, id) > 0)
}

/// The pages that running jobs hold and those that could be handed out are all the pages; when no
/// job runs any more, every page can be handed out again: none was lost.
pub proof fn no_page_is_lost(g: GenState)
    requires
        balanced(g),
    ensures
        paged::spare(g.table.pages) + job_pages(g).len() == g.table.size,
        g.active.len() == 0 ==> paged::spare(g.table.pages) == g.table.size,
{
    let p = g.table.pages;
    page_laws::spare_and_used_pages_are_all(p);
    assert(job_pages(g) =~= page_laws::used_pages(p)) by {
        assert forall|id: int| 0 <= id < g.table.size implies (held(g.active, id) > 0) == (p.rc[id] > 0) by {
            assert(p.rc[id] == held(g.active, id));
        }
    }
    if g.active.len() == 0 {
        assert(job_pages(g) =~= Set::<int>::empty());
    }
}

/// Two running jobs share a page only where it has a hash, which it gets when it is complete.
pub proof fn only_complete_pages_are_shared(g: GenState, i: int, j: int, id: int)
    requires
        balanced(g),
        0 <= i < j < g.active.len(),
        0 <= id < g.table.size,
        listed(g.active[i].block, id) || listed(g.active[i].neg_block, id),
        listed(g.active[j].block, id) || listed(g.active[j].neg_block, id),
    ensures
        g.table.pages.hash[id] is Some,
{
    lemma_held_two(g.active, i, j, id);
    lemma_times(g.active[i].block, id);
    lemma_times(g.active[i].neg_block, id);
    lemma_times(g.active[j].block, id);
    lemma_times(g.active[j].neg_block, id);
    assert(g.table.pages.rc[id] == held(g.active, id));
}

pub(super) proof fn lemma_held_two(jobs: Seq<JobState>, i: int, j: int, id: int)
    requires
        0 <= i < j < jobs.len(),
    ensures
        times(jobs[i].block, id) + times(jobs[i].neg_block, id) + times(jobs[j].block, id) + times(
            jobs[j].neg_block,
            id,
        ) <= held(jobs, id),
{
    lemma_held_remove(jobs, j, id);
    lemma_held(jobs.remove(j), id);
    assert(jobs.remove(j)[i] == jobs[i]);
}

/// Which recurrent slots the generator of a hybrid cache has: each is free or held by one
/// running job, and there are as many as jobs may run.
pub open spec fn slotted(g: GenState) -> bool {
    &&& g.slots_free.len() + g.active.len() == g.max_batch
    &&& forall|i: int| 0 <= i < g.slots_free.len() ==> #[trigger] g.slots_free[i] >= 0
    &&& forall|i: int| 0 <= i < g.active.len() ==> (#[trigger] g.active[i]).slot >= 0
    &&& forall|i: int, j: int| 0 <= i < j < g.slots_free.len() ==> #[trigger] g.slots_free[i] != #[trigger] g.slots_free[j]
    &&& forall|i: int, j: int|
        0 <= i < j < g.active.len() ==> (#[trigger] g.active[i]).slot != (#[trigger] g.active[j]).slot
    &&& forall|i: int, j: int|
        0 <= i < g.slots_free.len() && 0 <= j < g.active.len() ==> #[trigger] g.slots_free[i] != (
        #[trigger] g.active[j]).slot
}

/// A job that may be admitted finds a recurrent slot, and no two jobs ever have the same.
pub proof fn admitting_keeps_slots(g: GenState)
    requires
        g.cache == engine::CacheKind::Hybrid,
        slotted(g),
        engine::verdict(g) is Admit,
    ensures
        g.slots_free.len() > 0,
        !engine::draft_lacks(g, g.queue[0]) ==> slotted(engine::admitted(g)),
{
    if !engine::draft_lacks(g, g.queue[0]) {
        let s = g.queue[0];
        let h = engine::admitted(g);
        let last = h.active.last();
        assert(last.slot == g.slots_free.last());
        assert(h.active.drop_last() =~= g.active);
        assert forall|i: int| 0 <= i < g.active.len() implies #[trigger] h.active[i] == g.active[i] by {}
    }
}

/// A job that leaves gives its recurrent slot back.
pub proof fn leaving_keeps_slots(g: GenState, i: int)
    requires
        slotted(g),
        0 <= i < g.active.len(),
    ensures
        slotted(engine::freed_job(GenState { active: g.active.remove(i), ..g }, g.active[i]).0),
{
    let s = g.active[i];
    let h = engine::freed_job(GenState { active: g.active.remove(i), ..g }, s).0;
    assert(h.slots_free == g.slots_free.push(s.slot));
    assert forall|a: int| 0 <= a < h.active.len() implies #[trigger] h.active[a] == g.active[if a < i {
        a
    } else {
        a + 1
    }] by {}
}

} // verus!
