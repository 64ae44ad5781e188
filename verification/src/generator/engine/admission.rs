//! How waiting requests get their pages, and what of their prompts is already there.
use vstd::prelude::*;
use vstd::bytes::{spec_u128_from_le_bytes, spec_u128_to_le_bytes, u128_from_le_bytes};
use crate::cpu_cache::{freed, pushed, slots_ok, used, CpuPageCache};
use crate::generator::batch::states;
use crate::generator::engine::{
    in_table, lemma_runs_frame, runs, waits, CacheKind, Effect, GenState, Generator, SpecKind, Tier,
};
use crate::generator::job::{
    gen_reserve_of, job_ok, told_plain, told_refused, EosReason, Job, JobState, Stage, StreamEvent,
};
use crate::recent::{lemma_renewed, renew, renewed};
use crate::paged::{
    acquired_all, bytes_opt, chain_hash, chained, hashed, hits, key_of, page_count, page_tokens, pages_for,
    requested, spare, table_ok, taken_n, PageError, PageHash, PageTable, Pages, Table,
};

verus! {

/// How many pages the negative context of a job needs.
pub open spec fn neg_need(s: JobState) -> int {
    match s.neg_seq {
        Some(n) => page_count(n.len() + gen_reserve_of(s)),
        None => 0,
    }
}

/// How many pages a job needs.
pub open spec fn need_of(s: JobState) -> int {
    page_count(s.prompt_len + gen_reserve_of(s)) + neg_need(s)
}

/// What becomes of the job that waits longest.
pub enum Verdict {
    /// Nothing: there is none, or no room for it yet.
    Stop,
    /// It could not run in an empty pool.
    Refuse,
    Admit,
}

/// What becomes of the job that waits longest.
pub open spec fn verdict(g: GenState) -> Verdict {
    if g.active.len() >= g.max_batch || g.queue.len() == 0 {
        Verdict::Stop
    } else if need_of(g.queue[0]) > g.table.size {
        Verdict::Refuse
    } else if spare(g.table.pages) < need_of(g.queue[0]) {
        Verdict::Stop
    } else if g.queue[0].neg_seq is Some && g.active.len() + 2 > g.max_batch {
        Verdict::Stop
    } else {
        Verdict::Admit
    }
}

/// The host tier after evicted pages went there, and the copies to make.
pub open spec fn sent(t: Tier, evicted: Seq<(i32, u128)>) -> (Tier, Seq<Effect>)
    decreases evicted.len(),
{
    if evicted.len() == 0 {
        (t, seq![])
    } else {
        let (u, fx) = sent(t, evicted.drop_last());
        let (page, h) = evicted.last();
        if u.slots.by_hash.contains_key(h) {
            (u, fx)
        } else {
            (
                Tier { slots: pushed(u.slots, h), counts: (u.counts.0, (u.counts.1 + 1) as u64) },
                fx.push(Effect::CopyOut { page, slot: freed(u.slots).1 }),
            )
        }
    }
}

/// The pages and the host tier after the pages of a prompt, from page `k` on, came back from
/// host memory as far as they are there; up to which page; and the copies to make. `prev` is
/// the hash of the page before.
pub open spec fn fetched(
    p: Pages,
    t: Tier,
    seq: Seq<i64>,
    block: Seq<i32>,
    k: int,
    prev: Option<Seq<u8>>,
) -> (Pages, Tier, int, Seq<Effect>)
    decreases seq.len() - 256 * k,
{
    let bytes = chained(prev, page_tokens(seq, k));
    let h = spec_u128_from_le_bytes(bytes);
    if k < 0 || 256 * k + 256 > seq.len() || !t.slots.by_hash.contains_key(h) {
        (p, t, k, seq![])
    } else {
        let u = Tier { slots: used(t.slots, h), counts: ((t.counts.0 + 1) as u64, t.counts.1) };
        let (q, v, n, fx) = fetched(hashed(p, block[k], h), u, seq, block, k + 1, Some(bytes));
        (q, v, n, seq![Effect::CopyIn { slot: t.slots.by_hash[h], page: block[k] }] + fx)
    }
}

/// Where a job is placed.
#[verifier::ext_equal]
pub struct Place {
    pub table: Table,
    pub tier: Option<Tier>,
    pub block: Seq<i32>,
    pub neg_block: Seq<i32>,
    /// How many leading prompt tokens are in its pages.
    pub matched: int,
    pub effects: Seq<Effect>,
}

/// The hash of a page as bytes.
pub open spec fn page_bytes(p: Pages, page: i32) -> Option<Seq<u8>> {
    match p.hash[page as int] {
        Some(k) => Some(spec_u128_to_le_bytes(k)),
        None => None,
    }
}

/// The pages of a job: those of the negative context, then those of the prompt, shared as far
/// as they can be; then what the host tier adds.
#[verifier::opaque]
pub open spec fn place_of(g: GenState, s: JobState) -> Place {
    let (p1, neg_block) = if neg_need(s) > 0 {
        taken_n(g.table.pages, neg_need(s) as nat)
    } else {
        (g.table.pages, seq![])
    };
    let (t2, block, matched) = requested(Table { pages: p1, ..g.table }, s.seq, gen_reserve_of(s));
    match g.tier {
        None => Place { table: t2, tier: None, block, neg_block, matched, effects: seq![] },
        Some(tier) => {
            let p3 = Pages { evicted: seq![], ..t2.pages };
            if g.cache != CacheKind::Plain {
                Place {
                    table: Table { pages: p3, ..t2 },
                    tier: Some(tier),
                    block,
                    neg_block,
                    matched,
                    effects: seq![],
                }
            } else {
                let (tier1, fx1) = sent(tier, t2.pages.evicted);
                let k = matched / 256;
                let prev = if k > 0 {
                    page_bytes(p3, block[k - 1])
                } else {
                    None
                };
                let (p4, tier2, n, fx2) = fetched(p3, tier1, s.seq, block, k, prev);
                Place {
                    table: Table { pages: p4, ..t2 },
                    tier: Some(tier2),
                    block,
                    neg_block,
                    matched: 256 * n,
                    effects: fx1 + fx2,
                }
            }
        },
    }
}

/// From where the prompt of a job is ingested, when so many of its tokens are in its pages.
pub open spec fn resume_at(s: JobState, matched: int) -> int {
    if matched <= s.prompt_len - 1 {
        matched
    } else {
        s.prompt_len - 1
    }
}

/// Whether the recurrent state behind the matched pages is checkpointed.
pub open spec fn state_kept(g: GenState, pl: Place) -> Option<u128> {
    if pl.matched > 0 {
        match pl.table.pages.hash[pl.block[pl.matched / 256 - 1] as int] {
            Some(h) => if g.ckpts.contains(h) {
                Some(h)
            } else {
                None
            },
            None => None,
        }
    } else {
        None
    }
}

/// The checkpoints after a job was seated: the one that was restored was used.
pub open spec fn ckpts_after(g: GenState, pl: Place) -> Seq<u128> {
    if g.cache == CacheKind::Hybrid {
        match state_kept(g, pl) {
            Some(key) => renewed(g.ckpts, key),
            None => g.ckpts,
        }
    } else {
        g.ckpts
    }
}

/// An admitted job, before the draft model's pages.
pub open spec fn seated(g: GenState, s: JobState, pl: Place) -> JobState {
    let t = JobState { block: pl.block, neg_block: pl.neg_block, started_emitted: true, ..s };
    let at = resume_at(s, pl.matched) as i64;
    if g.cache == CacheKind::Hybrid {
        let u = JobState { slot: g.slots_free.last(), ..t };
        if state_kept(g, pl) is Some {
            JobState { kv_pos: at, hashed_pages: (at as int / 256) as usize, spec_prime_from: at, ..u }
        } else {
            u
        }
    } else if pl.matched > 0 {
        JobState { kv_pos: at, hashed_pages: (at as int / 256) as usize, ..t }
    } else {
        t
    }
}

/// What the device does for an admitted job.
pub open spec fn seating_effects(g: GenState, s: JobState, pl: Place) -> Seq<Effect> {
    let slot = g.slots_free.last();
    let fx = if g.cache == CacheKind::Hybrid {
        match state_kept(g, pl) {
            Some(key) => seq![Effect::ResetSlot { slot }, Effect::RestoreState { slot, key }],
            None => seq![Effect::ResetSlot { slot }],
        }
    } else {
        seq![]
    };
    let matcher = if g.ngram_match_min > 0 {
        seq![Effect::StartMatcher { serial: s.serial }]
    } else {
        seq![]
    };
    pl.effects + fx + matcher
}

/// How many pages of the draft model a job needs.
pub open spec fn draft_need(s: JobState) -> int {
    page_count(s.prompt_len + gen_reserve_of(s))
}

/// Whether the draft model's pool has no room for a job.
pub open spec fn draft_lacks(g: GenState, s: JobState) -> bool {
    g.spec == SpecKind::Draft && spare(g.draft->0.pages) < draft_need(s)
}

/// The generator after the job that waits longest was admitted, or lost for want of draft
/// pages.
pub open spec fn admitted(g: GenState) -> GenState {
    let s = g.queue[0];
    let pl = place_of(g, s);
    let j = seated(g, s, pl);
    let h = GenState {
        table: pl.table,
        tier: pl.tier,
        queue: g.queue.drop_first(),
        slots_free: if g.cache == CacheKind::Hybrid {
            g.slots_free.drop_last()
        } else {
            g.slots_free
        },
        ckpts: ckpts_after(g, pl),
        ..g
    };
    if g.spec == SpecKind::Draft {
        if draft_lacks(g, s) {
            h
        } else {
            let (p, ids) = taken_n(g.draft->0.pages, draft_need(s) as nat);
            GenState {
                draft: Some(Table { pages: p, ..g.draft->0 }),
                active: g.active.push(JobState { draft_block: ids, ..j }),
                ..h
            }
        }
    } else {
        GenState { active: g.active.push(j), ..h }
    }
}

/// Whether the counters can take the job that waits longest, and there is a recurrent slot for
/// it.
pub open spec fn admissible(g: GenState) -> bool {
    let s = g.queue[0];
    &&& spare(g.table.pages) <= usize::MAX
    &&& g.draft is Some ==> spare(g.draft->0.pages) <= usize::MAX
    &&& verdict(g) is Admit ==> {
        &&& g.cache == CacheKind::Hybrid ==> g.slots_free.len() > 0
        &&& g.table.sharing ==> {
            &&& g.table.stats.0 + s.seq.len() <= u64::MAX
            &&& g.table.stats.1 + s.seq.len() <= u64::MAX
            &&& s.seq.len() / 256 < u32::MAX
            &&& forall|i: int| 0 <= i < g.table.pages.rc.len() ==> #[trigger] g.table.pages.rc[i] + s.seq.len() / 256
                <= u32::MAX
        }
        &&& match g.tier {
            Some(t) => t.counts.0 + s.seq.len() <= u64::MAX && t.counts.1 + g.table.pages.evicted.len() + need_of(s)
                <= u64::MAX,
            None => true,
        }
        &&& draft_need(s) <= usize::MAX
    }
}

/// What becomes of the job that waits longest.
pub enum Admission {
    /// Nothing: there is none, or no room for it yet.
    Stop,
    /// It could not run in an empty pool.
    Refused { event: StreamEvent },
    /// It runs. The event is its first one.
    Admitted { effects: Vec<Effect>, event: Option<StreamEvent> },
    /// The draft model's pool has no room for it; it is lost.
    Failed { effects: Vec<Effect>, error: PageError },
}

/// Taking pages leaves each count as it was, or one.
proof fn lemma_taken_counts(p: Pages, n: nat)
    requires
        crate::paged::ranged(p),
        n <= spare(p),
    ensures
        forall|i: int|
            0 <= i < p.rc.len() ==> #[trigger] taken_n(p, n).0.rc[i] == p.rc[i] || taken_n(p, n).0.rc[i] == 1,
        taken_n(p, n).0.evicted.len() <= p.evicted.len() + n,
    decreases n,
{
    if n > 0 {
        let m = (n - 1) as nat;
        lemma_taken_counts(p, m);
        crate::paged::lemma_taken_n_ranged(p, m);
        let q = taken_n(p, m).0;
        assert forall|i: int| 0 <= i < p.rc.len() implies #[trigger] taken_n(p, n).0.rc[i] == p.rc[i] || taken_n(
            p,
            n,
        ).0.rc[i] == 1 by {
            assert(q.rc[i] == p.rc[i] || q.rc[i] == 1);
        }
    }
}

proof fn lemma_acquired_evicted(p: Pages, ids: Seq<i32>)
    ensures
        acquired_all(p, ids).evicted == p.evicted,
    decreases ids.len(),
{
    if ids.len() > 0 {
        lemma_acquired_evicted(p, ids.drop_last());
    }
}

/// A request evicts no more pages than it needs.
proof fn lemma_requested_evicted(t: Table, tokens: Seq<i64>, reserve: int)
    requires
        table_ok(t),
        reserve >= 0,
        page_count(tokens.len() + reserve) <= spare(t.pages),
        t.sharing ==> forall|i: int|
            0 <= i < t.pages.rc.len() ==> #[trigger] t.pages.rc[i] + tokens.len() / 256 <= u32::MAX,
    ensures
        requested(t, tokens, reserve).0.pages.evicted.len() <= t.pages.evicted.len() + page_count(
            tokens.len() + reserve,
        ),
{
    let need = page_count(tokens.len() + reserve);
    if t.sharing {
        let shared = hits(t.pages, tokens);
        crate::paged::lemma_hit_count(t.pages, tokens, 0);
        assert forall|i: int| 0 <= i < shared.len() implies 0 <= #[trigger] shared[i] < t.pages.rc.len() by {
            assert(t.pages.by_hash.contains_key(crate::paged::prefix_key(tokens, i)));
        }
        crate::paged::lemma_acquired_all(t.pages, shared, tokens.len() as int / 256);
        lemma_acquired_evicted(t.pages, shared);
        lemma_taken_counts(acquired_all(t.pages, shared), (need - shared.len()) as nat);
    } else {
        lemma_taken_counts(t.pages, need as nat);
    }
}

/// What is decided on the job that waits longest, where `h` is what `g` becomes.
pub open spec fn decides(g: GenState, h: GenState, r: Admission) -> bool {
    let s = g.queue[0];
    match r {
        Admission::Stop => verdict(g) is Stop && h == g,
        Admission::Refused { event } => verdict(g) is Refuse && h == (GenState { queue: g.queue.drop_first(), ..g })
            && event.told() == told_refused(
            s.serial,
            EosReason::TooLarge { need: need_of(s) as i64, pool: g.table.size as i64 },
        ),
        Admission::Admitted { effects, event } => {
            &&& verdict(g) is Admit
            &&& !draft_lacks(g, s)
            &&& h == admitted(g)
            &&& effects@ == seating_effects(g, s, place_of(g, s))
            &&& match event {
                Some(ev) => !s.started_emitted && ev.told() == told_plain(s.serial, Stage::Started),
                None => s.started_emitted,
            }
        },
        Admission::Failed { effects, error } => {
            &&& verdict(g) is Admit
            &&& draft_lacks(g, s)
            &&& h == admitted(g)
            &&& effects@ == seating_effects(g, s, place_of(g, s))
            &&& error == (PageError::Exhausted {
                need: draft_need(s) as usize,
                free: spare(g.draft->0.pages) as usize,
            })
        },
    }
}

/// The evicted pages of a list.
spec fn keyed(v: Seq<(i32, PageHash)>) -> Seq<(i32, u128)> {
    Seq::new(v.len(), |i: int| (v[i].0, key_of(v[i].1)))
}

fn send_evicted(cpu: &mut CpuPageCache, evicted: &Vec<(i32, PageHash)>, effects: &mut Vec<Effect>)
    requires
        slots_ok(old(cpu).slots()),
        old(cpu).counts().1 + evicted@.len() <= u64::MAX,
        old(effects)@.len() == 0,
    ensures
        slots_ok(final(cpu).slots()),
        (Tier { slots: final(cpu).slots(), counts: final(cpu).counts() }, final(effects)@) == sent(
            Tier { slots: old(cpu).slots(), counts: old(cpu).counts() },
            keyed(evicted@),
        ),
        final(cpu).counts().0 == old(cpu).counts().0,
        final(cpu).counts().1 <= old(cpu).counts().1 + evicted@.len(),
{
    let ghost t = Tier { slots: cpu.slots(), counts: cpu.counts() };
    let ghost all = keyed(evicted@);
    let mut i: usize = 0;
    assert(all.take(0) =~= seq![]);
    assert(effects@ =~= seq![]);
    while i < evicted.len()
        invariant
            i <= evicted@.len(),
            all == keyed(evicted@),
            slots_ok(cpu.slots()),
            (Tier { slots: cpu.slots(), counts: cpu.counts() }, effects@) == sent(t, all.take(i as int)),
            cpu.counts().0 == t.counts.0,
            cpu.counts().1 <= t.counts.1 + i,
            t.counts.1 + evicted@.len() <= u64::MAX,
        decreases evicted@.len() - i,
    {
        assert(all.take(i + 1).drop_last() =~= all.take(i as int));
        assert(all.take(i + 1).last() == all[i as int]);
        let (page, h) = evicted[i];
        match cpu.push(h) {
            Some(slot) => {
                effects.push(Effect::CopyOut { page, slot });
            },
            None => {},
        }
        i = i + 1;
    }
    assert(all.take(i as int) =~= all);
}

fn fetch_pages(
    pages: &mut PageTable,
    cpu: &mut CpuPageCache,
    seq: &Vec<i64>,
    block: &Vec<i32>,
    from: usize,
    prev: Option<PageHash>,
    effects: &mut Vec<Effect>,
) -> (r: usize)
    requires
        old(pages).inv(),
        slots_ok(old(cpu).slots()),
        old(cpu).counts().0 + seq@.len() <= u64::MAX,
        256 * from <= seq@.len(),
        256 * block@.len() + 256 > seq@.len(),
        in_table(block@, old(pages).size()),
    ensures
        final(pages).inv(),
        slots_ok(final(cpu).slots()),
        final(pages).size() == old(pages).size(),
        final(pages).stats() == old(pages).stats(),
        final(pages).sharing() == old(pages).sharing(),
        from <= r,
        256 * r <= seq@.len(),
        ({
            let (p, t, n, fx) = fetched(
                old(pages).pages(),
                Tier { slots: old(cpu).slots(), counts: old(cpu).counts() },
                seq@,
                block@,
                from as int,
                bytes_opt(prev),
            );
            &&& final(pages).pages() == p
            &&& Tier { slots: final(cpu).slots(), counts: final(cpu).counts() } == t
            &&& r == n
            &&& final(effects)@ == old(effects)@ + fx
        }),
{
    let ghost want = fetched(
        pages.pages(),
        Tier { slots: cpu.slots(), counts: cpu.counts() },
        seq@,
        block@,
        from as int,
        bytes_opt(prev),
    );
    let ghost fx0 = effects@;
    let ghost c0 = cpu.counts().0;
    let mut k: usize = from;
    let mut before: Option<PageHash> = prev;
    let full: usize = seq.len() / 256;
    proof {
        assert(fx0 + want.3 =~= effects@ + want.3);
    }
    while k < full
        invariant_except_break
            from <= k <= full,
            pages.inv(),
            pages.size() == old(pages).size(),
            pages.stats() == old(pages).stats(),
            pages.sharing() == old(pages).sharing(),
            slots_ok(cpu.slots()),
            ({
                let (p, t, n, fx) = fetched(
                    pages.pages(),
                    Tier { slots: cpu.slots(), counts: cpu.counts() },
                    seq@,
                    block@,
                    k as int,
                    bytes_opt(before),
                );
                p == want.0 && t == want.1 && n == want.2 && fx0 + want.3 == effects@ + fx
            }),
            cpu.counts().0 <= c0 + (k - from),
        invariant
            full == seq@.len() / 256,
            c0 + seq@.len() <= u64::MAX,
            256 * block@.len() + 256 > seq@.len(),
            in_table(block@, old(pages).size()),
        ensures
            from <= k <= full,
            pages.inv(),
            pages.size() == old(pages).size(),
            pages.stats() == old(pages).stats(),
            pages.sharing() == old(pages).sharing(),
            slots_ok(cpu.slots()),
            pages.pages() == want.0,
            (Tier { slots: cpu.slots(), counts: cpu.counts() }) == want.1,
            k == want.2,
            effects@ == fx0 + want.3,
        decreases full - k,
    {
        let len: usize = seq.len();
        assert(k * 256 + 256 <= len);
        let chunk = vstd::slice::slice_subrange(seq.as_slice(), k * 256, k * 256 + 256);
        assert(chunk@ =~= page_tokens(seq@, k as int));
        let h = chain_hash(before, chunk);
        assert(key_of(h) == spec_u128_from_le_bytes(chained(bytes_opt(before), page_tokens(seq@, k as int))));
        match cpu.restore(&h) {
            Some(slot) => {
                let phys: i32 = block[k];
                pages.register_restored(phys, h);
                let ghost fx1 = effects@;
                effects.push(Effect::CopyIn { slot, page: phys });
                before = Some(h);
                k = k + 1;
                proof {
                    let fx = fetched(
                        pages.pages(),
                        Tier { slots: cpu.slots(), counts: cpu.counts() },
                        seq@,
                        block@,
                        k as int,
                        bytes_opt(before),
                    ).3;
                    assert(fx1 + (seq![Effect::CopyIn { slot, page: phys }] + fx) =~= effects@ + fx);
                }
            },
            None => {
                proof {
                    assert(effects@ + Seq::<Effect>::empty() =~= effects@);
                }
                break;
            },
        }
    }
    k
}

impl Generator {
    /// What becomes of the job that waits longest, and how many pages it needs: its own, and
    /// those of its negative context.
    fn judge(&self) -> (r: (Verdict, usize, usize))
        requires
            self.inv(),
            spare(self.state().table.pages) <= usize::MAX,
        ensures
            r.0 == verdict(self.state()),
            r.0 is Admit ==> r.1 == page_count(
                self.state().queue[0].prompt_len + gen_reserve_of(self.state().queue[0]),
            ) && r.2 == neg_need(self.state().queue[0]),
            r.0 is Refuse ==> self.state().queue.len() > 0,
    {
        if self.active.len() >= self.max_batch || self.queue.len() == 0 {
            return (Verdict::Stop, 0, 0);
        }
        assert(waits(self.state().queue[0]));
        let job = &self.queue[0];
        let reserve = job.gen_reserve();
        let neg: i64 = match &job.neg_seq {
            Some(n) => pages_for(n.len() as i64 + reserve),
            None => 0,
        };
        let own: i64 = job.pages_needed();
        let need: i64 = own + neg;
        if need > self.pages.num_pages() {
            return (Verdict::Refuse, 0, 0);
        }
        let room: usize = self.pages.num_free();
        if (room as i128) < need as i128 {
            return (Verdict::Stop, 0, 0);
        }
        if job.neg_seq.is_some() && self.max_batch - self.active.len() < 2 {
            return (Verdict::Stop, 0, 0);
        }
        (Verdict::Admit, own as usize, neg as usize)
    }

    fn refuse(&mut self) -> (r: StreamEvent)
        requires
            old(self).inv(),
            old(self).state().queue.len() > 0,
            need_of(old(self).state().queue[0]) <= i64::MAX,
        ensures
            final(self).inv(),
            final(self).state() == (GenState { queue: old(self).state().queue.drop_first(), ..old(self).state() }),
            r.told() == told_refused(
                old(self).state().queue[0].serial,
                EosReason::TooLarge {
                    need: need_of(old(self).state().queue[0]) as i64,
                    pool: old(self).state().table.size as i64,
                },
            ),
    {
        let ghost g = self.state();
        let ghost q = self.queue@;
        assert(waits(g.queue[0]));
        let job = self.queue.remove(0);
        proof {
            assert(job@ == g.queue[0]);
            assert(states(self.queue@) =~= g.queue.drop_first());
            assert(self.state() =~= (GenState { queue: g.queue.drop_first(), ..g }));
            assert forall|i: int| 0 <= i < self.state().queue.len() implies waits(#[trigger] self.state().queue[i]) by {
                assert(waits(g.queue[i + 1]));
            }
            assert forall|i: int| 0 <= i < self.queue@.len() implies (#[trigger] self.queue@[i]).parts_ok() by {
                assert(q[i + 1].parts_ok());
            }
            lemma_runs_frame(g, self.state());
            assert(q[0].parts_ok());
        }
        let reserve = job.gen_reserve();
        let neg: i64 = match &job.neg_seq {
            Some(n) => pages_for(n.len() as i64 + reserve),
            None => 0,
        };
        let need: i64 = job.pages_needed() + neg;
        let pool = self.pages.num_pages();
        StreamEvent::refused(job.serial, EosReason::TooLarge { need, pool })
    }

    /// Pages for a job.
    fn seat(&mut self, job: &mut Job, own: usize, neg: usize) -> (r: (i64, Vec<Effect>))
        requires
            old(self).inv(),
            waits(old(job)@),
            old(job).parts_ok(),
            own == page_count(old(job)@.prompt_len + gen_reserve_of(old(job)@)),
            neg == neg_need(old(job)@),
            own + neg <= spare(old(self).state().table.pages) <= usize::MAX,
            old(self).state().table.sharing ==> {
                &&& old(self).state().table.stats.0 + old(job)@.seq.len() <= u64::MAX
                &&& old(self).state().table.stats.1 + old(job)@.seq.len() <= u64::MAX
                &&& old(job)@.seq.len() / 256 < u32::MAX
                &&& forall|i: int|
                    0 <= i < old(self).state().table.pages.rc.len() ==> #[trigger] old(self).state().table.pages.rc[i]
                        + old(job)@.seq.len() / 256 <= u32::MAX
            },
            match old(self).state().tier {
                Some(t) => t.counts.0 + old(job)@.seq.len() <= u64::MAX && t.counts.1 + old(
                    self,
                ).state().table.pages.evicted.len() + own + neg <= u64::MAX,
                None => true,
            },
        ensures
            final(self).inv(),
            ({
                let pl = place_of(old(self).state(), old(job)@);
                &&& final(self).state() == (GenState { table: pl.table, tier: pl.tier, ..old(self).state() })
                &&& final(job)@ == (JobState { block: pl.block, neg_block: pl.neg_block, ..old(job)@ })
                &&& r.0 == pl.matched
                &&& r.1@ == pl.effects
                &&& 0 <= pl.matched <= old(job)@.seq.len()
                &&& pl.matched % 256 == 0
                &&& pl.block.len() == own
                &&& pl.table.size == old(self).state().table.size
                &&& old(job)@.neg_seq is None ==> pl.neg_block.len() == 0
            }),
            final(job).parts_ok(),
            in_table(final(job)@.block, old(self).state().table.size),
            in_table(final(job)@.neg_block, old(self).state().table.size),
    {
        let ghost g = self.state();
        let ghost s = job@;
        let reserve = job.gen_reserve();
        let ghost pl = place_of(g, s);
        proof {
            reveal(place_of);
            lemma_taken_counts(g.table.pages, neg as nat);
            crate::paged::lemma_taken_n_ranged(g.table.pages, neg as nat);
        }
        if neg > 0 {
            match self.pages.alloc_pages(neg) {
                Ok(ids) => {
                    job.neg_block = ids;
                },
                Err(_) => {},
            }
        }
        let ghost p1 = self.pages.pages();
        let ghost t1 = Table { pages: p1, ..g.table };
        proof {
            if neg == 0 {
                assert(taken_n(g.table.pages, 0).0 == g.table.pages);
            }
            assert forall|i: int| 0 <= i < p1.rc.len() && g.table.sharing implies #[trigger] p1.rc[i] + s.seq.len()
                / 256 <= u32::MAX by {
                assert(g.table.pages.rc[i] + s.seq.len() / 256 <= u32::MAX);
            }
            if g.table.sharing {
                crate::paged::lemma_hit_count(p1, s.seq, 0);
                crate::page_laws::free_pages_are_enough(p1, s.seq, reserve as int);
            }
            lemma_requested_evicted(t1, s.seq, reserve as int);
        }
        let mut block: Vec<i32> = Vec::new();
        let mut matched: i64 = 0;
        proof {
            if g.table.sharing {
                crate::paged::lemma_hit_count(p1, s.seq, 0);
            }
        }
        match self.pages.alloc_prefix(job.seq.as_slice(), reserve) {
            Ok((b, m)) => {
                block = b;
                matched = m;
            },
            Err(_) => {},
        }
        let ghost t2 = self.pages.table();
        assert((t2, block@, matched as int) == requested(t1, s.seq, reserve as int));
        let mut effects: Vec<Effect> = Vec::new();
        let len: usize = job.seq.len();
        assert(0 <= matched <= len);
        assert(effects@ =~= seq![]);
        match &mut self.cpu {
            None => {
                assert(pl == (Place {
                    table: t2,
                    tier: None,
                    block: block@,
                    neg_block: job@.neg_block,
                    matched: matched as int,
                    effects: seq![],
                }));
            },
            Some(cpu) => {
                let ghost tier0 = Tier { slots: cpu.slots(), counts: cpu.counts() };
                let evicted = self.pages.drain_evicted();
                assert(keyed(evicted@) =~= t2.pages.evicted);
                if self.cache == CacheKind::Plain {
                    let ghost p3 = self.pages.pages();
                    send_evicted(cpu, &evicted, &mut effects);
                    let ghost tier1 = Tier { slots: cpu.slots(), counts: cpu.counts() };
                    let ghost fx1 = effects@;
                    assert((tier1, fx1) == sent(tier0, t2.pages.evicted));
                    let from: usize = matched as usize / 256;
                    assert(from == matched as int / 256);
                    let prev = if from > 0 {
                        self.pages.page_hash(block[from - 1])
                    } else {
                        None
                    };
                    proof {
                        vstd::bytes::lemma_auto_spec_u128_to_from_le_bytes();
                        if from > 0 {
                            assert(bytes_opt(prev) == page_bytes(p3, block@[from - 1]));
                        }
                    }
                    let n = fetch_pages(&mut self.pages, cpu, &job.seq, &block, from, prev, &mut effects);
                    proof {
                        let got = fetched(p3, tier1, s.seq, block@, from as int, bytes_opt(prev));
                        assert(pl == (Place {
                            table: Table { pages: got.0, ..t2 },
                            tier: Some(got.1),
                            block: block@,
                            neg_block: job@.neg_block,
                            matched: 256 * got.2,
                            effects: fx1 + got.3,
                        }));
                    }
                    matched = n as i64 * 256;
                } else {
                    assert(pl == (Place {
                        table: Table { pages: Pages { evicted: seq![], ..t2.pages }, ..t2 },
                        tier: Some(tier0),
                        block: block@,
                        neg_block: job@.neg_block,
                        matched: matched as int,
                        effects: seq![],
                    }));
                }
            },
        }
        job.block = block;
        proof {
            assert(job@ =~= (JobState { block: pl.block, neg_block: pl.neg_block, ..s }));
            assert(self.state() =~= (GenState { table: pl.table, tier: pl.tier, ..g }));
            assert(effects@ =~= pl.effects);
            lemma_runs_frame(g, self.state());
        }
        (matched, effects)
    }
}

impl Generator {
    pub(super) fn has_checkpoint(&self, key: u128) -> (r: bool)
        ensures
            r == self.state().ckpts.contains(key),
    {
        let mut i: usize = 0;
        while i < self.ckpts.len()
            invariant
                i <= self.ckpts@.len(),
                forall|j: int| 0 <= j < i ==> self.ckpts@[j] != key,
            decreases self.ckpts@.len() - i,
        {
            if self.ckpts[i] == key {
                return true;
            }
            i = i + 1;
        }
        false
    }

    /// Give a job its recurrent slot and its place in the prompt, from what its pages hold.
    #[verifier::spinoff_prover]
    #[verifier::rlimit(40)]
    fn settle(&mut self, job: &mut Job, matched: i64, effects: &mut Vec<Effect>, Ghost(pl): Ghost<Place>)
        requires
            old(self).inv(),
            waits((JobState { block: seq![], neg_block: seq![], ..old(job)@ })),
            old(job).parts_ok(),
            old(job)@.block == pl.block,
            old(job)@.neg_block == pl.neg_block,
            old(self).state().table == pl.table,
            in_table(pl.block, pl.table.size),
            matched == pl.matched,
            0 <= matched <= old(job)@.seq.len(),
            256 * pl.block.len() >= old(job)@.seq.len(),
            matched % 256 == 0,
            old(effects)@ == pl.effects,
            old(self).state().cache == CacheKind::Hybrid ==> old(self).state().slots_free.len() > 0,
        ensures
            final(self).inv(),
            final(self).state() == (GenState {
                slots_free: if old(self).state().cache == CacheKind::Hybrid {
                    old(self).state().slots_free.drop_last()
                } else {
                    old(self).state().slots_free
                },
                ckpts: ckpts_after(old(self).state(), pl),
                ..old(self).state()
            }),
            final(job)@ == (JobState {
                started_emitted: old(job)@.started_emitted,
                ..seated(old(self).state(), old(job)@, pl)
            }),
            final(job).parts_ok(),
            job_ok(final(job)@),
            final(effects)@ == seating_effects(old(self).state(), old(job)@, pl),
    {
        let ghost g = self.state();
        let ghost s = job@;
        let at: i64 = if matched <= job.prompt_len - 1 {
            matched
        } else {
            job.prompt_len - 1
        };
        let len: usize = job.seq.len();
        assert(at < len);
        if self.cache == CacheKind::Hybrid {
            let mut slot: i64 = -1;
            match self.slots_free.pop() {
                Some(x) => {
                    slot = x;
                },
                None => {},
            }
            assert(self.slots_free@ =~= g.slots_free.drop_last());
            job.slot = slot;
            effects.push(Effect::ResetSlot { slot });
            let mut kept: Option<u128> = None;
            if matched > 0 {
                let pidx: usize = matched as usize / 256;
                match self.pages.page_hash(job.block[pidx - 1]) {
                    Some(h) => {
                        let key = u128_from_le_bytes(h.as_slice());
                        if self.has_checkpoint(key) {
                            kept = Some(key);
                        }
                    },
                    None => {},
                }
            }
            assert(kept == state_kept(g, pl));
            match kept {
                Some(key) => {
                    effects.push(Effect::RestoreState { slot, key });
                    proof {
                        lemma_renewed(g.ckpts, key);
                    }
                    renew(&mut self.ckpts, key);
                    job.kv_pos = at;
                    job.hashed_pages = (at / 256) as usize;
                    job.spec_prime_from = at;
                },
                None => {},
            }
        } else if matched > 0 {
            job.kv_pos = at;
            job.hashed_pages = (at / 256) as usize;
        }
        if self.ngram_match_min > 0 {
            effects.push(Effect::StartMatcher { serial: job.serial });
        }
        proof {
            assert(effects@ =~= seating_effects(g, s, pl));
            assert(job@ =~= (JobState { started_emitted: s.started_emitted, ..seated(g, s, pl) }));
            assert(self.state() =~= (GenState {
                slots_free: if g.cache == CacheKind::Hybrid {
                    g.slots_free.drop_last()
                } else {
                    g.slots_free
                },
                ckpts: ckpts_after(g, pl),
                ..g
            }));
            lemma_runs_frame(g, self.state());
        }
    }

    /// Let a job run, with pages of the draft model where there is one.
    fn enter(&mut self, job: Job, own: usize, effects: Vec<Effect>) -> (r: Admission)
        requires
            old(self).inv(),
            job_ok(job@),
            job.parts_ok(),
            in_table(job@.block, old(self).state().table.size),
            in_table(job@.neg_block, old(self).state().table.size),
            job@.draft_block.len() == 0,
            job@.neg_seq is None ==> job@.neg_block.len() == 0,
            job@.neg_seq is Some ==> job@.neg_seq->0.len() >= 1 && !job@.cfg_primed,
            !job@.requeue_pending,
            old(self).state().draft is Some ==> spare(old(self).state().draft->0.pages) <= usize::MAX,
        ensures
            final(self).inv(),
            ({
                let g = old(self).state();
                let j = JobState { started_emitted: true, ..job@ };
                let lacks = g.spec == SpecKind::Draft && spare(g.draft->0.pages) < own;
                match r {
                    Admission::Admitted { effects: fx, event } => {
                        &&& !lacks
                        &&& fx == effects
                        &&& match event {
                            Some(ev) => !job@.started_emitted && ev.told() == told_plain(job@.serial, Stage::Started),
                            None => job@.started_emitted,
                        }
                        &&& final(self).state() == if g.spec == SpecKind::Draft {
                            let (p, ids) = taken_n(g.draft->0.pages, own as nat);
                            GenState {
                                draft: Some(Table { pages: p, ..g.draft->0 }),
                                active: g.active.push(JobState { draft_block: ids, ..j }),
                                ..g
                            }
                        } else {
                            GenState { active: g.active.push(j), ..g }
                        }
                    },
                    Admission::Failed { effects: fx, error } => {
                        &&& lacks
                        &&& fx == effects
                        &&& final(self).state() == g
                        &&& error == (PageError::Exhausted { need: own, free: spare(g.draft->0.pages) as usize })
                    },
                    _ => false,
                }
            }),
    {
        let ghost g = self.state();
        let ghost s = job@;
        let mut job = job;
        if self.spec == SpecKind::Draft {
            match &mut self.draft_pages {
                Some(t) => {
                    match t.alloc_pages(own) {
                        Ok(ids) => {
                            job.draft_block = ids;
                        },
                        Err(error) => {
                            proof {
                                assert(self.state() =~= g);
                                lemma_runs_frame(g, self.state());
                            }
                            return Admission::Failed { effects, error };
                        },
                    }
                },
                None => {},
            }
        }
        let event = if !job.started_emitted {
            Some(StreamEvent::plain(job.serial, Stage::Started))
        } else {
            None
        };
        job.started_emitted = true;
        let ghost last = job@;
        let ghost act = self.active@;
        self.active.push(job);
        proof {
            let h = self.state();
            assert(states(self.active@) =~= g.active.push(last));
            assert(last =~= (JobState { draft_block: last.draft_block, started_emitted: true, ..s }));
            assert(h =~= (GenState { draft: h.draft, active: g.active.push(last), ..g }));
            assert forall|i: int| 0 <= i < h.active.len() implies runs(h, #[trigger] h.active[i]) by {
                if i < g.active.len() {
                    assert(runs(g, g.active[i]));
                }
            }
            assert forall|i: int| 0 <= i < self.active@.len() implies (#[trigger] self.active@[i]).parts_ok() by {
                if i < act.len() {
                    assert(act[i].parts_ok());
                }
            }
        }
        Admission::Admitted { effects, event }
    }

    /// Decide on the job that waits longest, and admit it where there is room.
    pub fn admit_one(&mut self) -> (r: Admission)
        requires
            old(self).inv(),
            admissible(old(self).state()),
        ensures
            final(self).inv(),
            decides(old(self).state(), final(self).state(), r),
    {
        let ghost g = self.state();
        let (what, own, neg) = self.judge();
        match what {
            Verdict::Stop => {
                return Admission::Stop;
            },
            Verdict::Refuse => {
                assert(waits(g.queue[0]));
                let event = self.refuse();
                return Admission::Refused { event };
            },
            Verdict::Admit => {},
        }
        let ghost s = g.queue[0];
        let ghost q = self.queue@;
        assert(waits(s));
        assert(q[0].parts_ok());
        let mut job = self.queue.remove(0);
        let ghost h1 = self.state();
        proof {
            assert(states(self.queue@) =~= g.queue.drop_first());
            assert(h1 =~= (GenState { queue: g.queue.drop_first(), ..g }));
            assert forall|i: int| 0 <= i < h1.queue.len() implies waits(#[trigger] h1.queue[i]) by {
                assert(waits(g.queue[i + 1]));
            }
            assert forall|i: int| 0 <= i < self.queue@.len() implies (#[trigger] self.queue@[i]).parts_ok() by {
                assert(q[i + 1].parts_ok());
            }
            lemma_runs_frame(g, h1);
        }
        let (matched, mut effects) = self.seat(&mut job, own, neg);
        let ghost pl = place_of(g, s);
        let ghost j1 = job@;
        proof {
            assert(place_of(h1, s) == pl) by {
                reveal(place_of);
            }
        }
        let ghost h2 = self.state();
        self.settle(&mut job, matched, &mut effects, Ghost(pl));
        proof {
            assert(state_kept(h2, pl) == state_kept(g, pl));
            assert(seated(h2, j1, pl) =~= seated(g, s, pl));
            assert(seating_effects(h2, j1, pl) =~= seating_effects(g, s, pl));
        }
        self.enter(job, own, effects)
    }

    /// Whether the counters can take the job that waits longest, and there is a recurrent slot
    /// for it.
    pub fn can_admit(&self) -> (r: bool)
        requires
            self.inv(),
        ensures
            r == admissible(self.state()),
    {
        let a: u128 = self.pages.free_count() as u128;
        if a > usize::MAX as u128 {
            return false;
        }
        match &self.draft_pages {
            Some(t) => {
                if t.free_count() as u128 > usize::MAX as u128 {
                    return false;
                }
            },
            None => {},
        }
        let (what, own, neg) = self.judge();
        match what {
            Verdict::Admit => {},
            _ => {
                return true;
            },
        }
        assert(waits(self.state().queue[0]));
        let n: u64 = self.queue[0].seq.len() as u64;
        if self.cache == CacheKind::Hybrid && self.slots_free.len() == 0 {
            return false;
        }
        if self.pages.dedup() {
            let (c, p) = self.pages.prefix_stats();
            if n > u64::MAX - c || n > u64::MAX - p || n / 256 >= u32::MAX as u64 {
                return false;
            }
            if !self.pages.counts_below(u32::MAX - (n / 256) as u32) {
                return false;
            }
        }
        match &self.cpu {
            Some(cpu) => {
                let (back, out) = cpu.stats();
                let e: u64 = self.pages.evicted_count() as u64;
                let total: u128 = out as u128 + e as u128 + own as u128 + neg as u128;
                if n > u64::MAX - back || total > u64::MAX as u128 {
                    return false;
                }
            },
            None => {},
        }
        true
    }
}

} // verus!
