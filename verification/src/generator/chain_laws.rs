//! What the hashes of shared pages stand for: a page that has one holds the tokens up to its
//! end, for every job that holds it.
use vstd::bytes::{
    lemma_auto_spec_u128_to_from_le_bytes, lemma_auto_spec_u64_to_from_le_bytes, spec_u128_from_le_bytes,
    spec_u128_to_le_bytes,
};
use vstd::prelude::*;
use crate::generator::engine;
use crate::generator::engine::{GenState, Tier};
use crate::generator::job;
use crate::generator::job::JobState;
use crate::generator::laws;
use crate::generator::laws::{balanced, held, unshared, unused};
use crate::page_laws;
use crate::page_laws::{listed, sound, times};
use crate::paged;
use crate::paged::{Pages, Table};

verus! {

/// Every page of a job that has a hash has the chained hash of the job's tokens up to its end,
/// and the job's hashed pages have one.
pub open spec fn chained_job(p: Pages, s: JobState) -> bool {
    &&& s.hashed_pages <= s.block.len() <= i32::MAX
    &&& forall|k: int|
        0 <= k < s.block.len() && p.hash[(#[trigger] s.block[k]) as int] is Some ==> 256 * (k + 1) <= s.seq.len()
            && p.hash[s.block[k] as int] == Some(paged::prefix_key(s.seq, k))
    &&& forall|k: int| 0 <= k < s.hashed_pages ==> p.hash[(#[trigger] s.block[k]) as int] is Some
}

/// The pages of every running job have the hashes of its tokens.
pub open spec fn chained(g: GenState) -> bool {
    forall|j: int| 0 <= j < g.active.len() ==> chained_job(g.table.pages, #[trigger] g.active[j])
}

/// A generator without running jobs starts out so.
pub proof fn new_generators_are_chained(g: GenState)
    requires
        g.active.len() == 0,
    ensures
        chained(g),
{
}

/// The chained hash of a prefix takes sixteen bytes.
proof fn lemma_prefix_bytes(tokens: Seq<i64>, k: int)
    requires
        k >= 0,
    ensures
        paged::prefix_bytes(tokens, k + 1) is Some,
        Some(spec_u128_to_le_bytes(paged::prefix_key(tokens, k))) == paged::prefix_bytes(tokens, k + 1),
{
    lemma_auto_spec_u64_to_from_le_bytes();
    lemma_auto_spec_u128_to_from_le_bytes();
    let b = paged::prefix_bytes(tokens, k + 1)->0;
    assert(b == paged::chained(paged::prefix_bytes(tokens, k), paged::page_tokens(tokens, k)));
    assert(b.len() == 16);
    assert(spec_u128_to_le_bytes(spec_u128_from_le_bytes(b)) == b);
}

/// Tokens behind a page do not change its hash.
proof fn lemma_prefix_same(a: Seq<i64>, b: Seq<i64>, k: int)
    requires
        256 * k <= a.len() <= b.len(),
        a == b.take(a.len() as int),
    ensures
        paged::prefix_bytes(a, k) == paged::prefix_bytes(b, k),
    decreases k,
{
    if k > 0 {
        lemma_prefix_same(a, b, k - 1);
        assert(paged::page_tokens(a, k - 1) =~= paged::page_tokens(b, k - 1)) by {
            assert forall|i: int| 0 <= i < 256 implies #[trigger] paged::page_tokens(a, k - 1)[i] == paged::page_tokens(
                b,
                k - 1,
            )[i] by {
                assert(a[256 * (k - 1) + i] == b.take(a.len() as int)[256 * (k - 1) + i]);
            }
        }
    }
}

proof fn lemma_twice(ids: Seq<i32>, i: int, j: int)
    requires
        0 <= i < j < ids.len(),
        ids[i] == ids[j],
    ensures
        times(ids, ids[i] as int) >= 2,
    decreases ids.len(),
{
    let t = ids.drop_last();
    if j < t.len() {
        assert(t[i] == ids[i] && t[j] == ids[j]);
        lemma_twice(t, i, j);
    } else {
        assert(t[i] == ids[i]);
        page_laws::lemma_times(t, ids[i] as int);
        assert(listed(t, ids[i] as int));
    }
}

/// A page that a job holds has a reference.
proof fn lemma_referenced(g: GenState, j: int, k: int)
    requires
        balanced(g),
        engine::gen_ok(g),
        0 <= j < g.active.len(),
        0 <= k < g.active[j].block.len(),
    ensures
        0 <= g.active[j].block[k] < g.table.size,
        g.table.pages.rc[g.active[j].block[k] as int] > 0,
{
    let s = g.active[j];
    assert(engine::runs(g, s));
    let id = s.block[k] as int;
    assert(listed(s.block, id));
    page_laws::lemma_times(s.block, id);
    page_laws::lemma_times(s.neg_block, id);
    laws::lemma_held(g.active, id);
    assert(g.table.pages.rc[id] == held(g.active, id));
}

/// A page without a hash stands at one place alone.
proof fn lemma_alone(g: GenState, i: int, a: int, j: int, b: int)
    requires
        balanced(g),
        engine::gen_ok(g),
        0 <= i < g.active.len(),
        0 <= j < g.active.len(),
        0 <= a < g.active[i].block.len(),
        0 <= b < g.active[j].block.len(),
        g.active[i].block[a] == g.active[j].block[b],
        g.table.pages.hash[g.active[i].block[a] as int] is None,
    ensures
        i == j,
        a == b,
{
    let id = g.active[i].block[a] as int;
    lemma_referenced(g, i, a);
    assert(listed(g.active[i].block, id));
    assert(listed(g.active[j].block, id)) by {
        assert(g.active[j].block[b] == id);
    }
    assert(g.table.pages.rc[id] <= 1);
    assert(g.table.pages.rc[id] == held(g.active, id));
    page_laws::lemma_times(g.active[i].block, id);
    page_laws::lemma_times(g.active[i].neg_block, id);
    page_laws::lemma_times(g.active[j].block, id);
    page_laws::lemma_times(g.active[j].neg_block, id);
    if i < j {
        laws::lemma_held_two(g.active, i, j, id);
    } else if j < i {
        laws::lemma_held_two(g.active, j, i, id);
    } else {
        laws::lemma_held(g.active, id);
        if a < b {
            lemma_twice(g.active[i].block, a, b);
        } else if b < a {
            lemma_twice(g.active[i].block, b, a);
        }
    }
}

/// A request for pages leaves the hashes of pages in use, and the pages it shares have the
/// hashes of its tokens.
proof fn lemma_requested_hashes(t: Table, tokens: Seq<i64>, reserve: int)
    requires
        sound(t.pages),
        unshared(t.pages),
        reserve >= 0,
        paged::page_count(tokens.len() + reserve) <= paged::spare(t.pages),
        t.sharing ==> forall|i: int|
            0 <= i < t.pages.rc.len() ==> #[trigger] t.pages.rc[i] + tokens.len() / 256 <= u32::MAX,
    ensures
        ({
            let (u, block, matched) = paged::requested(t, tokens, reserve);
            &&& u.pages.hash.len() == t.pages.hash.len()
            &&& forall|id: int|
                0 <= id < t.pages.rc.len() && t.pages.rc[id] > 0 ==> #[trigger] u.pages.hash[id] == t.pages.hash[id]
            &&& 256 * (matched / 256) == matched <= tokens.len()
            &&& forall|k: int|
                0 <= k < matched / 256 ==> u.pages.hash[(#[trigger] block[k]) as int] == Some(
                    paged::prefix_key(tokens, k),
                )
        }),
{
    laws::lemma_requested(t, tokens, reserve);
    let need = paged::page_count(tokens.len() + reserve);
    let (u, block, matched) = paged::requested(t, tokens, reserve);
    if t.sharing {
        let shared = paged::hits(t.pages, tokens);
        let most = tokens.len() as int / 256;
        paged::lemma_hit_count(t.pages, tokens, 0);
        assert forall|i: int| 0 <= i < shared.len() implies 0 <= #[trigger] shared[i] < t.pages.rc.len()
            && t.pages.hash[shared[i] as int] == Some(paged::prefix_key(tokens, i)) by {
            page_laws::shared_pages_hold_the_prefix(t.pages, tokens, i);
            assert(t.pages.by_hash.contains_key(paged::prefix_key(tokens, i)));
        }
        paged::lemma_acquired_all(t.pages, shared, most);
        let q = paged::acquired_all(t.pages, shared);
        let n = (need - shared.len()) as nat;
        if t.pages.rc.len() == 0 {
            assert(shared =~= seq![]) by {
                if shared.len() > 0 {
                    assert(0 <= shared[0] < t.pages.rc.len());
                }
            }
        } else {
            laws::lemma_acquired_times(t.pages, shared, most, 0);
        }
        page_laws::taking_many_keeps_sound(q, n);
        let fresh = paged::taken_n(q, n).1;
        assert forall|id: int| 0 <= id < t.pages.rc.len() && q.rc[id] > 0 implies #[trigger] u.pages.hash[id]
            == t.pages.hash[id] by {
            if listed(fresh, id) {
                let i = choose|i: int| 0 <= i < fresh.len() && #[trigger] fresh[i] == id;
                assert(q.rc[fresh[i] as int] == 0);
            }
            assert(u.pages.rc[id] == q.rc[id] && u.pages.hash[id] == q.hash[id]);
        }
        assert forall|id: int| 0 <= id < t.pages.rc.len() && t.pages.rc[id] > 0 implies #[trigger] u.pages.hash[id]
            == t.pages.hash[id] by {
            laws::lemma_acquired_times(t.pages, shared, most, id);
            page_laws::lemma_times(shared, id);
        }
        assert forall|k: int| 0 <= k < matched / 256 implies u.pages.hash[(#[trigger] block[k]) as int] == Some(
            paged::prefix_key(tokens, k),
        ) by {
            let id = shared[k] as int;
            assert(block[k] == shared[k]);
            assert(listed(shared, id));
            page_laws::lemma_times(shared, id);
            laws::lemma_acquired_times(t.pages, shared, most, id);
            assert(q.rc[id] > 0);
        }
    } else {
        page_laws::taking_many_keeps_sound(t.pages, need as nat);
        let fresh = paged::taken_n(t.pages, need as nat).1;
        assert forall|id: int| 0 <= id < t.pages.rc.len() && t.pages.rc[id] > 0 implies #[trigger] u.pages.hash[id]
            == t.pages.hash[id] by {
            if listed(fresh, id) {
                let i = choose|i: int| 0 <= i < fresh.len() && #[trigger] fresh[i] == id;
                assert(t.pages.rc[fresh[i] as int] == 0);
            }
            assert(u.pages.rc[id] == t.pages.rc[id] && u.pages.hash[id] == t.pages.hash[id]);
        }
    }
}

/// Pages that come back from host memory have the hashes of the tokens they are fetched for.
proof fn lemma_fetched_hashes(p: Pages, t: Tier, tokens: Seq<i64>, block: Seq<i32>, k: int, prev: Option<Seq<u8>>)
    requires
        unused(p, block, k),
        p.hash.len() == p.rc.len(),
        0 <= k,
        256 * k <= tokens.len() <= 256 * block.len(),
        prev == paged::prefix_bytes(tokens, k),
    ensures
        ({
            let (q, v, n, fx) = engine::fetched(p, t, tokens, block, k, prev);
            &&& q.rc == p.rc
            &&& q.hash.len() == p.hash.len()
            &&& k <= n
            &&& 256 * n <= tokens.len()
            &&& forall|id: int|
                0 <= id < p.hash.len() && !listed(block.subrange(k, block.len() as int), id) ==> #[trigger] q.hash[id]
                    == p.hash[id]
            &&& forall|i: int|
                k <= i < n ==> q.hash[(#[trigger] block[i]) as int] == Some(paged::prefix_key(tokens, i))
            &&& forall|i: int| n <= i < block.len() ==> q.hash[(#[trigger] block[i]) as int] is None
        }),
    decreases tokens.len() - 256 * k,
{
    let bytes = paged::chained(prev, paged::page_tokens(tokens, k));
    let h = spec_u128_from_le_bytes(bytes);
    let all = block.subrange(k, block.len() as int);
    if !(k < 0 || 256 * k + 256 > tokens.len() || !t.slots.by_hash.contains_key(h)) {
        let u = Tier { slots: crate::cpu_cache::used(t.slots, h), counts: ((t.counts.0 + 1) as u64, t.counts.1) };
        assert(k < block.len());
        let id = block[k];
        let p1 = paged::hashed(p, id, h);
        assert(h == paged::prefix_key(tokens, k));
        assert forall|i: int| k + 1 <= i < block.len() implies 0 <= #[trigger] block[i] < p1.rc.len()
            && p1.rc[block[i] as int] > 0 && p1.hash[block[i] as int] is None by {
            assert(block[k] != block[i]);
        }
        lemma_fetched_hashes(p1, u, tokens, block, k + 1, Some(bytes));
        let (q, v, n, fx) = engine::fetched(p1, u, tokens, block, k + 1, Some(bytes));
        let rest = block.subrange(k + 1, block.len() as int);
        assert(!listed(rest, id as int)) by {
            if listed(rest, id as int) {
                let i = choose|i: int| 0 <= i < rest.len() && #[trigger] rest[i] == id;
                assert(block[k] != block[k + 1 + i]);
            }
        }
        assert(q.hash[id as int] == p1.hash[id as int]);
        assert forall|x: int| 0 <= x < p.hash.len() && !listed(all, x) implies #[trigger] q.hash[x] == p.hash[x] by {
            assert(all[0] == id);
            if listed(rest, x) {
                let i = choose|i: int| 0 <= i < rest.len() && #[trigger] rest[i] == x;
                assert(all[i + 1] == x);
            }
            assert(q.hash[x] == p1.hash[x]);
        }
    }
}

/// Where a job is placed, the pages of the running jobs keep their hashes, and its own have the
/// hashes of its tokens as far as they match.
pub proof fn lemma_placed(g: GenState)
    requires
        balanced(g),
        engine::gen_ok(g),
        engine::admissible(g),
        engine::verdict(g) is Admit,
    ensures
        ({
            let s = g.queue[0];
            let pl = engine::place_of(g, s);
            let q = pl.table.pages;
            &&& forall|id: int|
                0 <= id < g.table.size && g.table.pages.rc[id] > 0 ==> #[trigger] q.hash[id] == g.table.pages.hash[id]
            &&& 256 * (pl.matched / 256) == pl.matched <= s.seq.len()
            &&& 0 <= pl.matched / 256 <= pl.block.len() <= i32::MAX
            &&& forall|k: int|
                0 <= k < pl.matched / 256 ==> q.hash[(#[trigger] pl.block[k]) as int] == Some(
                    paged::prefix_key(s.seq, k),
                )
            &&& forall|k: int| pl.matched / 256 <= k < pl.block.len() ==> q.hash[(#[trigger] pl.block[k]) as int] is None
        }),
{
    let s = g.queue[0];
    assert(engine::waits(s));
    reveal(engine::place_of);
    let reserve = job::gen_reserve_of(s);
    let neg = engine::neg_need(s);
    let p = g.table.pages;
    let (p1, neg_block) = if neg > 0 {
        paged::taken_n(p, neg as nat)
    } else {
        (p, seq![])
    };
    if neg > 0 {
        page_laws::taking_many_keeps_sound(p, neg as nat);
        laws::lemma_taken_unshared(p, neg as nat);
    }
    let t1 = Table { pages: p1, ..g.table };
    assert forall|id: int| 0 <= id < p.rc.len() && p.rc[id] > 0 implies #[trigger] p1.hash[id] == p.hash[id]
        && p1.rc[id] > 0 by {
        if neg > 0 {
            if listed(neg_block, id) {
                let x = choose|x: int| 0 <= x < neg_block.len() && #[trigger] neg_block[x] == id;
                assert(p.rc[neg_block[x] as int] == 0);
            }
            assert(p1.rc[id] == p.rc[id] && p1.hash[id] == p.hash[id]);
        }
    }
    if g.table.sharing {
        assert forall|i: int| 0 <= i < p1.rc.len() implies #[trigger] p1.rc[i] + s.seq.len() / 256 <= u32::MAX by {
            assert(p.rc[i] + s.seq.len() / 256 <= u32::MAX);
            if neg > 0 {
                laws::lemma_taken_times(p, neg as nat, i);
                page_laws::lemma_times(neg_block, i);
                if listed(neg_block, i) {
                    let x = choose|x: int| 0 <= x < neg_block.len() && #[trigger] neg_block[x] == i;
                    assert(p1.rc[neg_block[x] as int] == 1);
                }
            }
        }
    }
    laws::lemma_requested(t1, s.seq, reserve);
    lemma_requested_hashes(t1, s.seq, reserve);
    let (t2, block, matched) = paged::requested(t1, s.seq, reserve);
    let k = matched / 256;
    assert(s.seq.len() <= 256 * block.len());
    match g.tier {
        None => {},
        Some(tier) => {
            if g.cache == engine::CacheKind::Plain {
                let p3 = Pages { evicted: seq![], ..t2.pages };
                let prev = if k > 0 {
                    engine::page_bytes(p3, block[k - 1])
                } else {
                    None
                };
                assert(prev == paged::prefix_bytes(s.seq, k)) by {
                    if k > 0 {
                        assert(p3.hash[block[k - 1] as int] == Some(paged::prefix_key(s.seq, k - 1)));
                        lemma_prefix_bytes(s.seq, k - 1);
                    }
                }
                let tier1 = engine::sent(tier, t2.pages.evicted).0;
                lemma_fetched_hashes(p3, tier1, s.seq, block, k, prev);
                let (q, v, n, fx) = engine::fetched(p3, tier1, s.seq, block, k, prev);
                let rest = block.subrange(k, block.len() as int);
                assert forall|id: int| 0 <= id < p.rc.len() && p.rc[id] > 0 implies #[trigger] q.hash[id] == p.hash[id] by {
                    if listed(rest, id) {
                        let i = choose|i: int| 0 <= i < rest.len() && #[trigger] rest[i] == id;
                        assert(block[k + i] == id);
                        lemma_fresh(t1, s.seq, reserve, k + i);
                        assert(p1.rc[id] > 0);
                    }
                    assert(p1.hash[id] == p.hash[id]);
                    assert(t2.pages.hash[id] == p1.hash[id]);
                }
                assert forall|i: int| 0 <= i < n implies q.hash[(#[trigger] block[i]) as int] == Some(
                    paged::prefix_key(s.seq, i),
                ) by {
                    if i < k {
                        let id = block[i] as int;
                        assert(p3.hash[id] == Some(paged::prefix_key(s.seq, i)));
                        if listed(rest, id) {
                            let x = choose|x: int| 0 <= x < rest.len() && #[trigger] rest[x] == id;
                            assert(p3.hash[block[k + x] as int] is None);
                        }
                        lemma_in_range(t1, s.seq, reserve, i);
                        assert(q.hash[id] == p3.hash[id]);
                    }
                }
                assert(256 * n / 256 == n);
            }
        },
    }
    assert forall|id: int| 0 <= id < p.rc.len() && p.rc[id] > 0 implies #[trigger] t2.pages.hash[id] == p.hash[id] by {
        assert(p1.hash[id] == p.hash[id]);
    }
}

/// A page that is not shared was not in use.
proof fn lemma_fresh(t: Table, tokens: Seq<i64>, reserve: int, i: int)
    requires
        sound(t.pages),
        unshared(t.pages),
        reserve >= 0,
        paged::page_count(tokens.len() + reserve) <= paged::spare(t.pages),
        t.sharing ==> forall|i: int|
            0 <= i < t.pages.rc.len() ==> #[trigger] t.pages.rc[i] + tokens.len() / 256 <= u32::MAX,
        paged::requested(t, tokens, reserve).2 / 256 <= i < paged::requested(t, tokens, reserve).1.len(),
    ensures
        t.pages.rc[paged::requested(t, tokens, reserve).1[i] as int] == 0,
{
    let need = paged::page_count(tokens.len() + reserve);
    if t.sharing {
        let shared = paged::hits(t.pages, tokens);
        let most = tokens.len() as int / 256;
        paged::lemma_hit_count(t.pages, tokens, 0);
        assert forall|x: int| 0 <= x < shared.len() implies 0 <= #[trigger] shared[x] < t.pages.rc.len()
            && t.pages.hash[shared[x] as int] is Some by {
            page_laws::shared_pages_hold_the_prefix(t.pages, tokens, x);
            assert(t.pages.by_hash.contains_key(paged::prefix_key(tokens, x)));
        }
        paged::lemma_acquired_all(t.pages, shared, most);
        let q = paged::acquired_all(t.pages, shared);
        let n = (need - shared.len()) as nat;
        if t.pages.rc.len() > 0 {
            laws::lemma_acquired_times(t.pages, shared, most, 0);
        } else {
            assert(shared =~= seq![]) by {
                if shared.len() > 0 {
                    assert(0 <= shared[0] < t.pages.rc.len());
                }
            }
        }
        page_laws::taking_many_keeps_sound(q, n);
        let fresh = paged::taken_n(q, n).1;
        let id = fresh[i - shared.len()];
        assert(q.rc[id as int] == 0);
        laws::lemma_acquired_times(t.pages, shared, most, id as int);
        page_laws::lemma_times(shared, id as int);
    } else {
        page_laws::taking_many_keeps_sound(t.pages, need as nat);
    }
}

/// The pages of a request are pages of the table.
proof fn lemma_in_range(t: Table, tokens: Seq<i64>, reserve: int, i: int)
    requires
        sound(t.pages),
        unshared(t.pages),
        reserve >= 0,
        paged::page_count(tokens.len() + reserve) <= paged::spare(t.pages),
        t.sharing ==> forall|i: int|
            0 <= i < t.pages.rc.len() ==> #[trigger] t.pages.rc[i] + tokens.len() / 256 <= u32::MAX,
        0 <= i < paged::requested(t, tokens, reserve).1.len(),
    ensures
        0 <= paged::requested(t, tokens, reserve).1[i] < t.pages.rc.len(),
{
    laws::lemma_requested(t, tokens, reserve);
    let (u, block, matched) = paged::requested(t, tokens, reserve);
    if i < matched / 256 {
        let shared = paged::hits(t.pages, tokens);
        paged::lemma_hit_count(t.pages, tokens, 0);
        assert(t.pages.by_hash.contains_key(paged::prefix_key(tokens, i)));
        assert(block[i] == shared[i]);
    }
}

/// A job that is admitted holds, for as many of its leading tokens as match, pages that have the
/// hashes of just these tokens; the other jobs' pages stay as they are.
pub proof fn admitting_keeps_chains(g: GenState)
    requires
        balanced(g),
        chained(g),
        engine::gen_ok(g),
        engine::admissible(g),
        engine::verdict(g) is Admit,
        !engine::draft_lacks(g, g.queue[0]),
    ensures
        chained(engine::admitted(g)),
{
    let s = g.queue[0];
    assert(engine::waits(s));
    lemma_placed(g);
    let pl = engine::place_of(g, s);
    let h = engine::admitted(g);
    let q = pl.table.pages;
    assert forall|j: int| 0 <= j < h.active.len() implies chained_job(h.table.pages, #[trigger] h.active[j]) by {
        if j < g.active.len() {
            let t = g.active[j];
            assert(h.active[j] == t);
            assert(chained_job(g.table.pages, t));
            assert forall|k: int| 0 <= k < t.block.len() implies q.hash[(#[trigger] t.block[k]) as int]
                == g.table.pages.hash[t.block[k] as int] by {
                lemma_referenced(g, j, k);
            }
        }
    }
}

/// The generator after the next page of a job got its hash.
spec fn hash_one(g: GenState, j: int) -> GenState {
    let s = g.active[j];
    let p = g.table.pages;
    let k = s.hashed_pages as int;
    let prev = if k == 0 {
        None
    } else {
        engine::page_bytes(p, s.block[k - 1])
    };
    let q = if p.hash[s.block[k] as int] is Some {
        p
    } else {
        paged::hashed(
            p,
            s.block[k],
            spec_u128_from_le_bytes(paged::chained(prev, paged::page_tokens(s.seq, k))),
        )
    };
    GenState {
        table: Table { pages: q, ..g.table },
        active: g.active.update(j, JobState { hashed_pages: (k + 1) as usize, ..s }),
        ..g
    }
}

/// A page that gets its hash gets that of the tokens up to its end, and no other one changes.
proof fn lemma_hash_one_page(g: GenState, j: int)
    requires
        balanced(g),
        chained(g),
        engine::gen_ok(g),
        0 <= j < g.active.len(),
        g.active[j].hashed_pages < g.active[j].block.len(),
    ensures
        ({
            let k = g.active[j].hashed_pages as int;
            let q = hash_one(g, j).table.pages;
            &&& q.hash[g.active[j].block[k] as int] == Some(paged::prefix_key(g.active[j].seq, k))
            &&& forall|i: int, m: int|
                0 <= i < g.active.len() && 0 <= m < g.active[i].block.len() && !(i == j && m == k) ==> q.hash[(
                #[trigger] g.active[i].block[m]) as int] == g.table.pages.hash[g.active[i].block[m] as int]
        }),
{
    let s = g.active[j];
    let k = s.hashed_pages as int;
    let p = g.table.pages;
    let id = s.block[k];
    let q = hash_one(g, j).table.pages;
    assert(chained_job(p, s));
    if k > 0 {
        assert(p.hash[s.block[k - 1] as int] is Some);
        lemma_prefix_bytes(s.seq, k - 1);
    }
    lemma_referenced(g, j, k);
    assert(p.hash[s.block[k] as int] is Some ==> p.hash[s.block[k] as int] == Some(paged::prefix_key(s.seq, k)));
    assert forall|i: int, m: int|
        0 <= i < g.active.len() && 0 <= m < g.active[i].block.len() && !(i == j && m == k) implies q.hash[(
    #[trigger] g.active[i].block[m]) as int] == p.hash[g.active[i].block[m] as int] by {
        if p.hash[id as int] is None && g.active[i].block[m] == id {
            lemma_alone(g, i, m, j, k);
        }
    }
}

proof fn lemma_hash_one_chain(g: GenState, j: int)
    requires
        balanced(g),
        chained(g),
        engine::gen_ok(g),
        0 <= j < g.active.len(),
        g.active[j].hashed_pages < g.active[j].block.len(),
        256 * (g.active[j].hashed_pages + 1) <= g.active[j].seq.len(),
    ensures
        chained(hash_one(g, j)),
{
    let s = g.active[j];
    let k = s.hashed_pages as int;
    let p = g.table.pages;
    let h = hash_one(g, j);
    let q = h.table.pages;
    lemma_hash_one_page(g, j);
    assert forall|i: int| 0 <= i < h.active.len() implies chained_job(q, #[trigger] h.active[i]) by {
        let x = g.active[i];
        let t = h.active[i];
        assert(chained_job(p, x));
        assert(t.block == x.block && t.seq == x.seq);
        assert forall|m: int| 0 <= m < t.block.len() && q.hash[(#[trigger] t.block[m]) as int] is Some implies 256 * (m
            + 1) <= t.seq.len() && q.hash[t.block[m] as int] == Some(paged::prefix_key(t.seq, m)) by {
            assert(g.active[i].block[m] == t.block[m]);
        }
        assert forall|m: int| 0 <= m < t.hashed_pages implies q.hash[(#[trigger] t.block[m]) as int] is Some by {
            assert(g.active[i].block[m] == t.block[m]);
        }
    }
}

/// Giving the complete pages of a job their hashes.
pub proof fn lemma_hashed_chain(g: GenState, j: int)
    requires
        balanced(g),
        chained(g),
        engine::gen_ok(g),
        0 <= j < g.active.len(),
    ensures
        ({
            let s = g.active[j];
            let (p, n) = engine::hashed_from(g.table.pages, s, s.hashed_pages as int);
            chained(
                GenState {
                    table: Table { pages: p, ..g.table },
                    active: g.active.update(j, JobState { hashed_pages: n as usize, ..s }),
                    ..g
                },
            )
        }),
    decreases g.active[j].block.len() - g.active[j].hashed_pages,
{
    let s = g.active[j];
    let k = s.hashed_pages as int;
    assert(engine::runs(g, s));
    assert(chained_job(g.table.pages, s));
    if 256 * k + 256 > s.kv_pos || k >= s.block.len() {
        assert(g.active.update(j, JobState { hashed_pages: k as usize, ..s }) =~= g.active);
    } else {
        let h = hash_one(g, j);
        let t = h.active[j];
        let q = h.table.pages;
        lemma_hash_one(g, j);
        lemma_hash_one_chain(g, j);
        lemma_hashed_chain(h, j);
        lemma_same_hashing(q, s, t, k + 1);
        let n = engine::hashed_from(q, t, k + 1).1;
        assert(h.active.update(j, JobState { hashed_pages: n as usize, ..t }) =~= g.active.update(
            j,
            JobState { hashed_pages: n as usize, ..s },
        ));
    }
}

/// What is hashed does not depend on how much was hashed before.
proof fn lemma_same_hashing(p: Pages, s: JobState, t: JobState, k: int)
    requires
        t == (JobState { hashed_pages: t.hashed_pages, ..s }),
    ensures
        engine::hashed_from(p, s, k) == engine::hashed_from(p, t, k),
    decreases s.block.len() - k,
{
    if !(k < 0 || 256 * k + 256 > s.kv_pos || k >= s.block.len()) {
        let prev = if k == 0 {
            None
        } else {
            engine::page_bytes(p, s.block[k - 1])
        };
        let q = if p.hash[s.block[k] as int] is Some {
            p
        } else {
            paged::hashed(
                p,
                s.block[k],
                spec_u128_from_le_bytes(paged::chained(prev, paged::page_tokens(s.seq, k))),
            )
        };
        lemma_same_hashing(q, s, t, k + 1);
    }
}

/// Giving one page its hash keeps the balance.
proof fn lemma_hash_one(g: GenState, j: int)
    requires
        balanced(g),
        engine::gen_ok(g),
        0 <= j < g.active.len(),
        0 <= g.active[j].hashed_pages < g.active[j].block.len() <= i32::MAX,
    ensures
        balanced(hash_one(g, j)),
        engine::gen_ok(hash_one(g, j)),
{
    let s = g.active[j];
    let p = g.table.pages;
    let k = s.hashed_pages as int;
    let h = hash_one(g, j);
    let q = h.table.pages;
    lemma_referenced(g, j, k);
    if p.hash[s.block[k] as int] is None {
        let prev = if k == 0 {
            None
        } else {
            engine::page_bytes(p, s.block[k - 1])
        };
        page_laws::hashing_keeps_sound(
            p,
            s.block[k],
            spec_u128_from_le_bytes(paged::chained(prev, paged::page_tokens(s.seq, k))),
        );
    }
    let same = GenState { active: h.active, ..g };
    laws::steps_in_place_keep_balance(g, same);
    assert forall|x: int| 0 <= x < q.rc.len() && #[trigger] q.hash[x] is None implies q.rc[x] <= 1 by {
        assert(p.hash[x] is None);
    }
    assert forall|x: int| 0 <= x < h.table.size implies #[trigger] h.table.pages.rc[x] == held(h.active, x) by {
        assert(same.table.pages.rc[x] == held(same.active, x));
    }
    assert forall|m: int| 0 <= m < h.active.len() implies engine::runs(h, #[trigger] h.active[m]) by {
        assert(engine::runs(g, g.active[m]));
    }
}

/// Giving complete pages their hashes keeps every page's hash that of the tokens it holds.
pub proof fn hashing_keeps_chains(g: GenState, n: nat)
    requires
        balanced(g),
        chained(g),
        engine::gen_ok(g),
        n <= g.active.len(),
    ensures
        chained(engine::hashed_jobs(g, n).0),
        balanced(engine::hashed_jobs(g, n).0),
        engine::gen_ok(engine::hashed_jobs(g, n).0),
        engine::hashed_jobs(g, n).0.active.len() == g.active.len(),
    decreases n,
{
    if n > 0 {
        let m = (n - 1) as nat;
        hashing_keeps_chains(g, m);
        laws::hashing_keeps_balance(g, n);
        let h = engine::hashed_jobs(g, m).0;
        let k = engine::hashed_jobs(g, n).0;
        let j = n - 1;
        lemma_hashed_chain(h, j);
        lemma_hashed_ok(h, j);
        let s = h.active[j];
        let (p, x) = engine::hashed_from(h.table.pages, s, s.hashed_pages as int);
        let t = JobState { hashed_pages: x as usize, ..s };
        let l = GenState { table: Table { pages: p, ..h.table }, active: h.active.update(j, t), ..h };
        assert(k == GenState { ckpts: k.ckpts, ..l });
        assert forall|i: int| 0 <= i < k.active.len() implies chained_job(k.table.pages, #[trigger] k.active[i]) by {
            assert(chained_job(l.table.pages, l.active[i]));
        }
        assert forall|i: int| 0 <= i < k.active.len() implies engine::runs(k, #[trigger] k.active[i]) by {
            assert(engine::runs(l, l.active[i]));
        }
        assert forall|i: int| 0 <= i < k.queue.len() implies engine::waits(#[trigger] k.queue[i]) by {
            assert(engine::waits(l.queue[i]));
        }
    }
}

/// Giving a job's pages their hashes keeps the generator's rules.
proof fn lemma_hashed_ok(g: GenState, j: int)
    requires
        balanced(g),
        engine::gen_ok(g),
        0 <= j < g.active.len(),
    ensures
        ({
            let s = g.active[j];
            let (p, n) = engine::hashed_from(g.table.pages, s, s.hashed_pages as int);
            engine::gen_ok(
                GenState {
                    table: Table { pages: p, ..g.table },
                    active: g.active.update(j, JobState { hashed_pages: n as usize, ..s }),
                    ..g
                },
            )
        }),
{
    let s = g.active[j];
    let (p, n) = engine::hashed_from(g.table.pages, s, s.hashed_pages as int);
    let t = JobState { hashed_pages: n as usize, ..s };
    let h = GenState { table: Table { pages: p, ..g.table }, active: g.active.update(j, t), ..g };
    assert(engine::runs(g, s));
    assert forall|i: int| 0 <= i < s.block.len() implies 0 <= #[trigger] s.block[i] < g.table.pages.rc.len()
        && g.table.pages.rc[s.block[i] as int] > 0 by {
        lemma_referenced(g, j, i);
    }
    laws::lemma_hashed_from(g.table.pages, s, s.hashed_pages as int);
    assert forall|m: int| 0 <= m < h.active.len() implies engine::runs(h, #[trigger] h.active[m]) by {
        assert(engine::runs(g, g.active[m]));
    }
}

/// When jobs leave, the pages of those that stay keep their hashes.
pub proof fn reaping_keeps_chains(g: GenState, i: int)
    requires
        balanced(g),
        chained(g),
        engine::gen_ok(g),
        0 <= i,
    ensures
        chained(engine::reaped_from(g, i).0),
    decreases g.active.len() - i,
{
    if i < g.active.len() {
        let s = g.active[i];
        assert(engine::runs(g, s));
        if s.done || s.requeue_pending {
            let g1 = GenState { active: g.active.remove(i), ..g };
            let (h, fx) = engine::freed_job(g1, s);
            laws::leaving_keeps_balance(g, i);
            laws::lemma_freed_ok(g, i);
            lemma_freed_hashes(g, i);
            let k = if s.done {
                h
            } else {
                GenState { queue: seq![job::requeued(s)] + h.queue, ..h }
            };
            assert(balanced(k));
            assert(chained(k)) by {
                assert forall|j: int| 0 <= j < k.active.len() implies chained_job(k.table.pages, #[trigger] k.active[j]) by {
                    let x = if j < i {
                        j
                    } else {
                        j + 1
                    };
                    assert(chained_job(g.table.pages, g.active[x]));
                }
            }
            assert(engine::gen_ok(k)) by {
                assert forall|m: int| 0 <= m < k.queue.len() implies engine::waits(#[trigger] k.queue[m]) by {
                    if !s.done && m > 0 {
                        assert(engine::waits(h.queue[m - 1]));
                    } else if s.done {
                        assert(engine::waits(h.queue[m]));
                    }
                }
                assert forall|m: int| 0 <= m < k.active.len() implies engine::runs(k, #[trigger] k.active[m]) by {
                    assert(engine::runs(h, h.active[m]));
                }
            }
            reaping_keeps_chains(k, i);
        } else {
            reaping_keeps_chains(g, i + 1);
        }
    }
}

/// A job that leaves takes no hash with it.
proof fn lemma_freed_hashes(g: GenState, i: int)
    requires
        balanced(g),
        engine::gen_ok(g),
        0 <= i < g.active.len(),
    ensures
        paged::released(paged::released(g.table.pages, g.active[i].block), g.active[i].neg_block).hash
            == g.table.pages.hash,
{
    let s = g.active[i];
    lemma_released_hash(g.table.pages, s.block);
    lemma_released_hash(paged::released(g.table.pages, s.block), s.neg_block);
}

proof fn lemma_released_hash(p: Pages, ids: Seq<i32>)
    ensures
        paged::released(p, ids).hash == p.hash,
    decreases ids.len(),
{
    if ids.len() > 0 {
        lemma_released_hash(p, ids.drop_last());
    }
}

/// A step that leaves the table as it was, and only adds tokens to jobs, keeps every page's hash
/// that of the tokens it holds.
pub proof fn steps_in_place_keep_chains(g: GenState, h: GenState)
    requires
        chained(g),
        h.table == g.table,
        h.active.len() == g.active.len(),
        forall|j: int|
            0 <= j < h.active.len() ==> {
                &&& (#[trigger] h.active[j]).block == g.active[j].block
                &&& h.active[j].hashed_pages == g.active[j].hashed_pages
                &&& g.active[j].seq.len() <= h.active[j].seq.len()
                &&& g.active[j].seq == h.active[j].seq.take(g.active[j].seq.len() as int)
            },
    ensures
        chained(h),
{
    assert forall|j: int| 0 <= j < h.active.len() implies chained_job(h.table.pages, #[trigger] h.active[j]) by {
        let s = g.active[j];
        let t = h.active[j];
        assert(chained_job(g.table.pages, s));
        assert forall|k: int| 0 <= k < t.block.len() && h.table.pages.hash[(#[trigger] t.block[k]) as int] is Some implies 256
            * (k + 1) <= t.seq.len() && h.table.pages.hash[t.block[k] as int] == Some(paged::prefix_key(t.seq, k)) by {
            assert(s.block[k] == t.block[k]);
            lemma_prefix_same(s.seq, t.seq, k + 1);
        }
        assert forall|k: int| 0 <= k < t.hashed_pages implies h.table.pages.hash[(#[trigger] t.block[k]) as int] is Some by {
            assert(s.block[k] == t.block[k]);
        }
    }
}

/// Two jobs share a page only where their tokens up to its end have one and the same chained
/// hash.
pub proof fn pages_are_shared_by_prefix(g: GenState, i: int, a: int, j: int, b: int)
    requires
        balanced(g),
        chained(g),
        engine::gen_ok(g),
        0 <= i < g.active.len(),
        0 <= j < g.active.len(),
        i != j,
        0 <= a < g.active[i].block.len(),
        0 <= b < g.active[j].block.len(),
        g.active[i].block[a] == g.active[j].block[b],
    ensures
        256 * (a + 1) <= g.active[i].seq.len(),
        256 * (b + 1) <= g.active[j].seq.len(),
        paged::prefix_key(g.active[i].seq, a) == paged::prefix_key(g.active[j].seq, b),
{
    if g.table.pages.hash[g.active[i].block[a] as int] is None {
        lemma_alone(g, i, a, j, b);
    }
    assert(chained_job(g.table.pages, g.active[i]));
    assert(chained_job(g.table.pages, g.active[j]));
    assert(g.active[j].block[b] == g.active[i].block[a]);
}

/// A checkpoint is kept under the chained hash of the tokens that its job has in the cache, and
/// a job resumes from one only where the tokens it matches have that hash.
pub proof fn checkpoints_stand_for_their_tokens(g: GenState, j: int, key: u128)
    requires
        balanced(g),
        chained(g),
        engine::gen_ok(g),
    ensures
        0 <= j < g.active.len() && engine::boundary_hash(g.table.pages, g.active[j]) == Some(key) ==> key
            == paged::prefix_key(g.active[j].seq, g.active[j].kv_pos as int / 256 - 1),
        engine::admissible(g) && engine::verdict(g) is Admit && engine::state_kept(
            g,
            engine::place_of(g, g.queue[0]),
        ) == Some(key) ==> g.ckpts.contains(key) && key == paged::prefix_key(
            g.queue[0].seq,
            engine::place_of(g, g.queue[0]).matched / 256 - 1,
        ),
{
    if 0 <= j < g.active.len() && engine::boundary_hash(g.table.pages, g.active[j]) == Some(key) {
        let s = g.active[j];
        assert(chained_job(g.table.pages, s));
        assert(g.table.pages.hash[s.block[s.kv_pos as int / 256 - 1] as int] is Some);
    }
    if engine::admissible(g) && engine::verdict(g) is Admit {
        lemma_placed(g);
        let pl = engine::place_of(g, g.queue[0]);
        if engine::state_kept(g, pl) == Some(key) {
            assert(pl.table.pages.hash[pl.block[pl.matched / 256 - 1] as int] == Some(
                paged::prefix_key(g.queue[0].seq, pl.matched / 256 - 1),
            ));
        }
    }
}

} // verus!
