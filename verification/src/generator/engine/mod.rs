//! Continuous batching: many jobs share one paged cache. Each round admits queued jobs,
//! ingests a chunk of the prompts that are not in the cache yet, and decodes a token or more
//! for the others. New jobs join as others finish and give their pages back.
//!
//! What the device does is not here: a step that needs it returns what is to be done, and is
//! told what came of it.
use vstd::prelude::*;
use crate::cpu_cache::{new_slots, slots_ok, CpuPageCache, Slots};
use crate::generator::batch::states;
use crate::generator::job::{job_ok, Hits, Job, JobState};
use crate::paged::{new_table, page_count, table_ok, PageTable, Table};
pub use self::queue::{cancelled, guides, job_index, others, with_cancelled};
pub use self::admission::{
    admissible, admitted, decides, draft_lacks, draft_need, fetched, need_of, neg_need, page_bytes, place_of,
    resume_at, seated, seating_effects, sent, state_kept, verdict, Admission, Place, Verdict,
};
pub use self::steps::{chunk_end, chunks_go_forward, decodes, gen_mid, guided_rows, plain_rows, tallied, with_job};
pub use self::masks::{allow_mask, only};
pub use self::hashing::{boundary_hash, checkpointed, hashed_from, hashed_job, hashed_jobs};
pub use self::reaping::{freed_job, reaped_from};
pub use self::images::{mm_admitted, mm_after, mm_before, mm_need, MmRefusal};
pub use self::commit::{
    committed, filed, filed_all, filing_keeps_order, finished_texts, in_order, jobs_stop_at_their_length,
    rounds_add_a_prefix, texts_of, Commit, Committing,
};
pub use self::iteration::{
    doing_next, left_of, rounds_come_to_an_end, rows_go_through_a_round, Doing, Iteration, Task,
};
pub use self::rounds::{
    all_windowed, attempts_of, behind, chunk_pass, comes_next, drafts_next, fed_next, row_work_of, unfiltered,
    verify_pass, window_slot, Attempt, Chunk, Drafting, Pass, Priming, RowWork, Single, Verification,
};

mod queue;
mod admission;
mod steps;
mod masks;
mod hashing;
mod reaping;
mod images;
mod rounds;
mod commit;
mod iteration;

verus! {

/// How the shared cache is stored.
#[derive(Clone, Copy, Debug, PartialEq, Eq, Structural)]
pub enum CacheKind {
    Plain,
    Quant,
    /// Pages for the full-attention layers, recurrent slots for the others.
    Hybrid,
}

/// What drafts tokens, besides the n-gram matcher.
#[derive(Clone, Copy, Debug, PartialEq, Eq, Structural)]
pub enum SpecKind {
    Nothing,
    Draft,
    Mtp,
    DFlash2,
}

/// Something for the device to do.
#[derive(Clone, Copy, Debug, PartialEq, Eq, Structural)]
pub enum Effect {
    /// Copy a page to a host slot.
    CopyOut { page: i32, slot: usize },
    /// Copy a host slot to a page.
    CopyIn { slot: usize, page: i32 },
    /// Zero the recurrent state of a slot.
    ResetSlot { slot: i64 },
    /// Restore the recurrent state of a slot from a checkpoint.
    RestoreState { slot: i64, key: u128 },
    /// Keep the recurrent state of a slot as a checkpoint.
    SaveState { slot: i64, key: u128 },
    /// Forget a checkpoint.
    DropState { key: u128 },
    /// Give a suffix matcher to the job.
    StartMatcher { serial: u64 },
    /// Forget the drafter's window of a slot.
    DropWindow { slot: i64 },
}

/// The host tier with its counts.
#[verifier::ext_equal]
pub struct Tier {
    pub slots: Slots,
    /// Pages that came back, and pages that came in.
    pub counts: (u64, u64),
}

/// The state of a generator.
#[verifier::ext_equal]
pub struct GenState {
    pub table: Table,
    pub cache: CacheKind,
    pub kv_bits: (i64, i64),
    pub max_chunk: i64,
    pub max_batch: usize,
    pub ngram_match_min: usize,
    pub num_draft_tokens: i64,
    pub dflash2_slots: usize,
    pub rq_budget: usize,
    pub spec: SpecKind,
    pub draft: Option<Table>,
    pub ckpts: Seq<u128>,
    pub ckpt_cap: usize,
    pub tier: Option<Tier>,
    pub accepted: u64,
    pub drafted: u64,
    pub next_serial: u64,
    pub queue: Seq<JobState>,
    pub active: Seq<JobState>,
    pub slots_free: Seq<i64>,
}

/// The jobs of many requests over one shared cache.
pub struct Generator {
    pages: PageTable,
    cache: CacheKind,
    kv_bits: (i64, i64),
    max_chunk: i64,
    max_batch: usize,
    /// The shortest suffix that may seed an n-gram draft, or 0.
    ngram_match_min: usize,
    num_draft_tokens: i64,
    /// How many slots have a drafter's window.
    dflash2_slots: usize,
    /// After how many tokens a job is queued again, or 0.
    rq_budget: usize,
    spec: SpecKind,
    draft_pages: Option<PageTable>,
    /// The hashes of the checkpointed states, the one used longest ago first.
    ckpts: Vec<u128>,
    ckpt_cap: usize,
    cpu: Option<CpuPageCache>,
    accepted: u64,
    drafted: u64,
    next_serial: u64,
    queue: Vec<Job>,
    active: Vec<Job>,
    slots_free: Vec<i64>,
}

/// Whether page numbers are those of a table.
pub open spec fn in_table(block: Seq<i32>, size: int) -> bool {
    forall|i: int| 0 <= i < block.len() ==> 0 <= #[trigger] block[i] < size
}

/// What a job that waits keeps.
pub open spec fn waits(s: JobState) -> bool {
    &&& job_ok(s)
    &&& s.seq.len() == s.prompt_len
    &&& s.kv_pos == 0
    &&& s.block.len() == 0
    &&& s.neg_block.len() == 0
    &&& s.draft_block.len() == 0
    &&& s.slot == -1
    &&& s.hashed_pages == 0
    &&& !s.done
    &&& !s.requeue_pending
    &&& match s.neg_seq {
        Some(n) => 1 <= n.len() && n.len() + s.max_new <= i64::MAX - 1024 && n.len() <= i64::MAX - 1024
            && !s.cfg_primed,
        None => true,
    }
}

/// What a job that runs keeps.
pub open spec fn runs(g: GenState, s: JobState) -> bool {
    job_ok(s) && holds(g, s)
}

/// What a running job holds of the pools: pages that are there, and a negative context only
/// where it asked for one.
pub open spec fn holds(g: GenState, s: JobState) -> bool {
    &&& in_table(s.block, g.table.size)
    &&& in_table(s.neg_block, g.table.size)
    &&& s.draft_block.len() > 0 ==> g.draft is Some && in_table(s.draft_block, g.draft->0.size)
    &&& s.neg_seq is None ==> s.neg_block.len() == 0
    &&& s.requeue_pending ==> s.neg_seq is None
    &&& match s.neg_seq {
        Some(n) => 1 <= n.len() && (s.cfg_primed ==> s.neg_kv_pos == n.len() - 1),
        None => true,
    }
}

/// What every generator keeps.
pub open spec fn gen_ok(g: GenState) -> bool {
    &&& pools_ok(g)
    &&& forall|i: int| 0 <= i < g.queue.len() ==> waits(#[trigger] g.queue[i])
    &&& forall|i: int| 0 <= i < g.active.len() ==> runs(g, #[trigger] g.active[i])
}

/// What the pools and the settings of a generator obey.
pub open spec fn pools_ok(g: GenState) -> bool {
    &&& table_ok(g.table)
    &&& 256 <= g.max_chunk
    &&& g.max_chunk % 256 == 0
    &&& match g.draft {
        Some(t) => table_ok(t),
        None => true,
    }
    &&& match g.tier {
        Some(t) => slots_ok(t.slots),
        None => true,
    }
    &&& g.spec == SpecKind::Draft ==> g.draft is Some
    &&& g.spec == SpecKind::Mtp || g.spec == SpecKind::DFlash2 ==> g.cache == CacheKind::Hybrid
    &&& g.ckpt_cap >= 1
    &&& g.ckpts.len() <= g.ckpt_cap
    &&& g.ckpts.no_duplicates()
}

/// Whether no job waits or runs.
pub open spec fn idle(g: GenState) -> bool {
    g.queue.len() == 0 && g.active.len() == 0
}

/// How many history planes a hybrid cache needs to take back a speculative pass.
pub open spec fn history_of(g: GenState) -> int {
    if g.ngram_match_min > 0 || g.spec != SpecKind::Nothing {
        g.num_draft_tokens + 1
    } else {
        0
    }
}

/// The length of drafts: as asked, or four.
pub open spec fn draft_len(asked: i64) -> i64 {
    if asked > 0 {
        asked
    } else {
        4
    }
}

/// The chunk size: at least a page, in whole pages.
pub open spec fn chunk_of(asked: int) -> int {
    let c = if asked >= 256 {
        asked
    } else {
        256
    };
    (c + 255) / 256 * 256
}

impl Generator {
    /// The state.
    pub closed spec fn state(&self) -> GenState {
        GenState {
            table: self.pages.table(),
            cache: self.cache,
            kv_bits: self.kv_bits,
            max_chunk: self.max_chunk,
            max_batch: self.max_batch,
            ngram_match_min: self.ngram_match_min,
            num_draft_tokens: self.num_draft_tokens,
            dflash2_slots: self.dflash2_slots,
            rq_budget: self.rq_budget,
            spec: self.spec,
            draft: match self.draft_pages {
                Some(t) => Some(t.table()),
                None => None,
            },
            ckpts: self.ckpts@,
            ckpt_cap: self.ckpt_cap,
            tier: match self.cpu {
                Some(c) => Some(Tier { slots: c.slots(), counts: c.counts() }),
                None => None,
            },
            accepted: self.accepted,
            drafted: self.drafted,
            next_serial: self.next_serial,
            queue: states(self.queue@),
            active: states(self.active@),
            slots_free: self.slots_free@,
        }
    }

    /// What every generator keeps.
    pub closed spec fn inv(&self) -> bool {
        &&& gen_ok(self.state())
        &&& forall|i: int| 0 <= i < self.queue@.len() ==> (#[trigger] self.queue@[i]).parts_ok()
        &&& forall|i: int| 0 <= i < self.active@.len() ==> (#[trigger] self.active@[i]).parts_ok()
    }

    /// Between a new token of job `j` and its event.
    pub closed spec fn mid(&self, j: int, h: Hits) -> bool {
        &&& gen_mid(self.state(), j, h)
        &&& forall|i: int| 0 <= i < self.queue@.len() ==> (#[trigger] self.queue@[i]).parts_ok()
        &&& forall|i: int| 0 <= i < self.active@.len() ==> (#[trigger] self.active@[i]).parts_ok()
    }

    /// A generator over `num_pages` shared pages, for up to `max_batch` jobs at a time, that
    /// ingests up to `max_chunk` prompt tokens per step.
    pub fn new(num_pages: i64, max_batch: usize, max_chunk: i64, kv_bits: (i64, i64), hybrid: bool) -> (r: Generator)
        requires
            0 <= num_pages <= i32::MAX,
            max_batch <= i64::MAX,
            max_chunk <= i64::MAX - 255,
        ensures
            r.inv(),
            r.state() == (GenState {
                table: new_table(num_pages as nat, false),
                cache: if hybrid {
                    CacheKind::Hybrid
                } else {
                    CacheKind::Plain
                },
                kv_bits,
                max_chunk: chunk_of(max_chunk as int) as i64,
                max_batch,
                ngram_match_min: 0,
                num_draft_tokens: 0,
                dflash2_slots: 0,
                rq_budget: 0,
                spec: SpecKind::Nothing,
                draft: None,
                ckpts: seq![],
                ckpt_cap: 24,
                tier: None,
                accepted: 0,
                drafted: 0,
                next_serial: 0,
                queue: seq![],
                active: seq![],
                slots_free: Seq::new(max_batch as nat, |i: int| (max_batch - 1 - i) as i64),
            }),
    {
        let c: i64 = if max_chunk >= 256 {
            max_chunk
        } else {
            256
        };
        let mut slots_free: Vec<i64> = Vec::new();
        let mut i: usize = 0;
        while i < max_batch
            invariant
                i <= max_batch <= i64::MAX,
                slots_free@ == Seq::new(i as nat, |j: int| (max_batch - 1 - j) as i64),
            decreases max_batch - i,
        {
            slots_free.push((max_batch - 1 - i) as i64);
            i = i + 1;
            assert(slots_free@ =~= Seq::new(i as nat, |j: int| (max_batch - 1 - j) as i64));
        }
        let r = Generator {
            pages: PageTable::new(num_pages),
            cache: if hybrid {
                CacheKind::Hybrid
            } else {
                CacheKind::Plain
            },
            kv_bits,
            max_chunk: (c + 255) / 256 * 256,
            max_batch,
            ngram_match_min: 0,
            num_draft_tokens: 0,
            dflash2_slots: 0,
            rq_budget: 0,
            spec: SpecKind::Nothing,
            draft_pages: None,
            ckpts: Vec::new(),
            ckpt_cap: 24,
            cpu: None,
            accepted: 0,
            drafted: 0,
            next_serial: 0,
            queue: Vec::new(),
            active: Vec::new(),
            slots_free,
        };
        assert(r.state().queue =~= seq![]);
        assert(r.state().active =~= seq![]);
        r
    }

    /// Turn n-gram drafting on. Returns how many history planes a hybrid cache needs now.
    pub fn enable_ngram(&mut self, match_min: usize, draft_tokens: i64) -> (r: Option<i64>)
        requires
            old(self).inv(),
            idle(old(self).state()),
            draft_tokens < i64::MAX,
        ensures
            final(self).inv(),
            final(self).state() == (GenState {
                ngram_match_min: match_min,
                num_draft_tokens: draft_len(draft_tokens),
                ..old(self).state()
            }),
            r == if old(self).state().cache == CacheKind::Hybrid {
                Some((draft_len(draft_tokens) + 1) as i64)
            } else {
                None
            },
    {
        self.ngram_match_min = match_min;
        self.set_draft_tokens(draft_tokens)
    }

    fn set_draft_tokens(&mut self, asked: i64) -> (r: Option<i64>)
        requires
            old(self).inv(),
            asked < i64::MAX,
        ensures
            final(self).inv(),
            final(self).state() == (GenState { num_draft_tokens: draft_len(asked), ..old(self).state() }),
            r == if old(self).state().cache == CacheKind::Hybrid {
                Some((draft_len(asked) + 1) as i64)
            } else {
                None
            },
    {
        self.num_draft_tokens = if asked > 0 {
            asked
        } else {
            4
        };
        assert(self.state() =~= (GenState { num_draft_tokens: draft_len(asked), ..old(self).state() }));
        if self.cache == CacheKind::Hybrid {
            Some(self.num_draft_tokens + 1)
        } else {
            None
        }
    }

    /// Turn drafting by the multi-token head on. Returns how many history planes the cache
    /// needs now.
    pub fn enable_mtp(&mut self, draft_tokens: i64) -> (r: Option<i64>)
        requires
            old(self).inv(),
            idle(old(self).state()),
            old(self).state().cache == CacheKind::Hybrid,
            draft_tokens < i64::MAX,
        ensures
            final(self).inv(),
            final(self).state() == (GenState {
                num_draft_tokens: draft_len(draft_tokens),
                spec: SpecKind::Mtp,
                ..old(self).state()
            }),
            r == Some((draft_len(draft_tokens) + 1) as i64),
    {
        self.spec = SpecKind::Mtp;
        self.set_draft_tokens(draft_tokens)
    }

    /// Turn block drafting on: a block proposes one token less than its size, of which
    /// `draft_tokens` may verify fewer. At most `slot_cap` slots draft. Returns how many history
    /// planes the cache needs now.
    pub fn enable_dflash2(&mut self, block_size: i64, draft_tokens: i64, slot_cap: usize) -> (r: i64)
        requires
            old(self).inv(),
            idle(old(self).state()),
            old(self).state().cache == CacheKind::Hybrid,
            block_size > i64::MIN,
        ensures
            final(self).inv(),
            ({
                let n = if draft_tokens > 0 && draft_tokens < block_size - 1 {
                    draft_tokens as int
                } else {
                    block_size - 1
                };
                let batch = if old(self).state().max_batch >= 1 {
                    old(self).state().max_batch
                } else {
                    1
                };
                let cap = if slot_cap >= 1 {
                    slot_cap
                } else {
                    1
                };
                &&& final(self).state() == (GenState {
                    num_draft_tokens: n as i64,
                    dflash2_slots: if batch <= cap {
                        batch
                    } else {
                        cap
                    },
                    spec: SpecKind::DFlash2,
                    ..old(self).state()
                })
                &&& r == n + 1
            }),
    {
        let full: i64 = block_size - 1;
        let n: i64 = if draft_tokens > 0 && draft_tokens < full {
            draft_tokens
        } else {
            full
        };
        let batch: usize = if self.max_batch >= 1 {
            self.max_batch
        } else {
            1
        };
        let cap: usize = if slot_cap >= 1 {
            slot_cap
        } else {
            1
        };
        self.num_draft_tokens = n;
        self.dflash2_slots = if batch <= cap {
            batch
        } else {
            cap
        };
        self.spec = SpecKind::DFlash2;
        n + 1
    }

    /// Turn drafting by a draft model on, with a pool of `num_pages` pages of its own. Returns
    /// how many history planes a hybrid cache needs now.
    pub fn enable_draft(&mut self, num_pages: i64, draft_tokens: i64) -> (r: Option<i64>)
        requires
            old(self).inv(),
            idle(old(self).state()),
            0 <= num_pages <= i32::MAX,
            draft_tokens < i64::MAX,
        ensures
            final(self).inv(),
            final(self).state() == (GenState {
                num_draft_tokens: draft_len(draft_tokens),
                spec: SpecKind::Draft,
                draft: Some(new_table(num_pages as nat, false)),
                ..old(self).state()
            }),
            r == if old(self).state().cache == CacheKind::Hybrid {
                Some((draft_len(draft_tokens) + 1) as i64)
            } else {
                None
            },
    {
        self.spec = SpecKind::Draft;
        let t = PageTable::new(num_pages);
        self.draft_pages = Some(t);
        self.set_draft_tokens(draft_tokens)
    }

    /// Share the pages of prompts that start alike.
    pub fn enable_prefix_cache(&mut self)
        requires
            old(self).inv(),
            idle(old(self).state()),
        ensures
            final(self).inv(),
            final(self).state() == (GenState {
                table: Table { sharing: true, ..old(self).state().table },
                ..old(self).state()
            }),
    {
        self.pages.set_dedup(true);
        assert(self.state() =~= (GenState {
            table: Table { sharing: true, ..old(self).state().table },
            ..old(self).state()
        }));
    }

    /// Keep evicted pages in host memory for `max_host_tokens` tokens.
    pub fn enable_cpu_cache(&mut self, max_host_tokens: i64)
        requires
            old(self).inv(),
            idle(old(self).state()),
            old(self).state().cache == CacheKind::Plain,
            max_host_tokens <= i64::MAX - 255,
            page_count(max_host_tokens as int) <= usize::MAX,
        ensures
            final(self).inv(),
            final(self).state() == (GenState {
                table: Table { sharing: true, ..old(self).state().table },
                tier: Some(Tier { slots: new_slots(max_host_tokens as int), counts: (0, 0) }),
                ..old(self).state()
            }),
    {
        self.pages.set_dedup(true);
        let c = CpuPageCache::new(max_host_tokens);
        self.cpu = Some(c);
        assert(self.state() =~= (GenState {
            table: Table { sharing: true, ..old(self).state().table },
            tier: Some(Tier { slots: new_slots(max_host_tokens as int), counts: (0, 0) }),
            ..old(self).state()
        }));
    }

    /// A job that has generated more tokens than these since it was last let in is queued again, with
    /// what it generated as its prompt; 0 for never.
    pub fn enable_requeue(&mut self, budget: usize)
        requires
            old(self).inv(),
        ensures
            final(self).inv(),
            final(self).state() == (GenState { rq_budget: budget, ..old(self).state() }),
    {
        self.rq_budget = budget;
    }

    /// How many checkpoints of recurrent states are kept at most.
    pub fn set_checkpoint_cap(&mut self, cap: usize)
        requires
            old(self).inv(),
            cap >= 1,
            old(self).state().ckpts.len() <= cap,
        ensures
            final(self).inv(),
            final(self).state() == (GenState { ckpt_cap: cap, ..old(self).state() }),
    {
        self.ckpt_cap = cap;
    }

    /// Store the cache quantized. Returns how many history planes a hybrid cache is to be
    /// rebuilt with, or `None` where it need not be.
    pub fn enable_cache_quant(&mut self, k_bits: i64, v_bits: i64) -> (r: Option<i64>)
        requires
            old(self).inv(),
            idle(old(self).state()),
            old(self).state().num_draft_tokens < i64::MAX,
        ensures
            final(self).inv(),
            final(self).state() == if old(self).state().cache == CacheKind::Hybrid {
                GenState { kv_bits: (k_bits, v_bits), ..old(self).state() }
            } else {
                GenState { cache: CacheKind::Quant, ..old(self).state() }
            },
            match r {
                Some(h) => old(self).state().cache == CacheKind::Hybrid && old(self).state().kv_bits != (
                    k_bits,
                    v_bits,
                ) && h == history_of(old(self).state()),
                None => old(self).state().cache != CacheKind::Hybrid || old(self).state().kv_bits == (
                    k_bits,
                    v_bits,
                ),
            },
    {
        if self.cache == CacheKind::Hybrid {
            let (k, v) = self.kv_bits;
            if k == k_bits && v == v_bits {
                assert(self.state() =~= (GenState { kv_bits: (k_bits, v_bits), ..old(self).state() }));
                return None;
            }
            self.kv_bits = (k_bits, v_bits);
            return Some(self.history());
        }
        self.cache = CacheKind::Quant;
        None
    }

    fn history(&self) -> (r: i64)
        requires
            self.state().num_draft_tokens < i64::MAX,
        ensures
            r == history_of(self.state()),
    {
        if self.ngram_match_min > 0 || self.spec != SpecKind::Nothing {
            self.num_draft_tokens + 1
        } else {
            0
        }
    }

    /// Change the number of shared pages. Returns how many history planes a hybrid cache is to
    /// be rebuilt with, or `None` where the number stays.
    pub fn resize_pool(&mut self, num_pages: i64) -> (r: Option<i64>)
        requires
            old(self).inv(),
            idle(old(self).state()),
            num_pages <= i32::MAX,
            old(self).state().num_draft_tokens < i64::MAX,
        ensures
            final(self).inv(),
            ({
                let n = if num_pages >= 1 {
                    num_pages
                } else {
                    1
                };
                if n == old(self).state().table.size {
                    r is None && final(self).state() == old(self).state()
                } else {
                    &&& r == Some(history_of(old(self).state()) as i64)
                    &&& final(self).state() == (GenState {
                        table: new_table(n as nat, old(self).state().table.sharing),
                        ..old(self).state()
                    })
                }
            }),
    {
        let n: i64 = if num_pages >= 1 {
            num_pages
        } else {
            1
        };
        if n == self.pages.num_pages() {
            return None;
        }
        let shares = self.pages.dedup();
        let h = self.history();
        self.pages = PageTable::new(n);
        self.pages.set_dedup(shares);
        Some(h)
    }

    /// Draft tokens accepted, and draft tokens in all.
    pub fn ngram_stats(&self) -> (r: (u64, u64))
        ensures
            r == (self.state().accepted, self.state().drafted),
    {
        (self.accepted, self.drafted)
    }

    /// Draft tokens accepted, and draft tokens in all, whatever drafted them.
    pub fn spec_stats(&self) -> (r: (u64, u64))
        ensures
            r == (self.state().accepted, self.state().drafted),
    {
        (self.accepted, self.drafted)
    }

    /// Prompt tokens found in shared pages, and prompt tokens in all.
    pub fn prefix_stats(&self) -> (r: (u64, u64))
        ensures
            r == self.state().table.stats,
    {
        self.pages.prefix_stats()
    }

    /// Pages that came back from host memory, and pages that went there.
    pub fn cpu_cache_stats(&self) -> (r: (u64, u64))
        ensures
            r == match self.state().tier {
                Some(t) => t.counts,
                None => (0u64, 0u64),
            },
    {
        match &self.cpu {
            Some(c) => c.stats(),
            None => (0, 0),
        }
    }

    /// How many shared pages there are.
    pub fn num_pages(&self) -> (r: i64)
        requires
            self.inv(),
        ensures
            r == self.state().table.size,
    {
        self.pages.num_pages()
    }

    /// How many tokens a round drafts at most.
    pub fn draft_tokens(&self) -> (r: i64)
        ensures
            r == self.state().num_draft_tokens,
    {
        self.num_draft_tokens
    }

    /// How many jobs wait or run.
    pub fn num_remaining(&self) -> (r: usize)
        requires
            self.state().queue.len() + self.state().active.len() <= usize::MAX,
        ensures
            r == self.state().queue.len() + self.state().active.len(),
    {
        self.queue.len() + self.active.len()
    }
}

/// Running jobs keep what they must where the tables keep their sizes.
proof fn lemma_runs_frame(g: GenState, h: GenState)
    requires
        forall|i: int| 0 <= i < g.active.len() ==> runs(g, #[trigger] g.active[i]),
        h.active == g.active,
        h.table.size == g.table.size,
        h.draft == g.draft,
    ensures
        forall|i: int| 0 <= i < h.active.len() ==> runs(h, #[trigger] h.active[i]),
{
    assert forall|i: int| 0 <= i < h.active.len() implies runs(h, #[trigger] h.active[i]) by {
        assert(runs(g, g.active[i]));
    }
}

/// A generator in which one running job changed, and the waiting ones.
proof fn lemma_changed_inv(g: GenState, h: GenState, p: int)
    requires
        gen_ok(g),
        0 <= p < g.active.len(),
        h == (GenState { queue: h.queue, active: h.active, ..g }),
        h.active == g.active.update(p, h.active[p]),
        runs(h, h.active[p]),
        forall|i: int| 0 <= i < h.queue.len() ==> waits(#[trigger] h.queue[i]),
    ensures
        gen_ok(h),
{
    assert forall|i: int| 0 <= i < h.active.len() implies runs(h, #[trigger] h.active[i]) by {
        if i != p {
            assert(runs(g, g.active[i]));
        }
    }
}

} // verus!
