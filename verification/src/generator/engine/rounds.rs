//! What a round does: which passes the device runs, what is fed to them, and what is done with
//! what came of them.
use vstd::prelude::*;
use crate::generator::batch::{block_table, fed_tokens, picked, slot_fed, widest, Batch};
use crate::generator::engine::{chunk_end, chunks_go_forward, runs, CacheKind, GenState, Generator, SpecKind};
use crate::generator::job::{ngram_draft, prefilled, JobState};
use crate::generator::verify::{lemma_shortest, rows_of, shortest, trim_drafts};

verus! {

/// A way to decode the rows of a round.
#[derive(Clone, Copy, Debug, PartialEq, Eq, Structural)]
pub enum Attempt {
    /// Verify what followed the last tokens where they stood before.
    NGram,
    /// Verify what a speculator proposes.
    Model,
    /// One token for each row.
    Plain,
}

/// Whether no row is filtered: the mask of a filter moves with every token.
pub open spec fn unfiltered(g: GenState, rows: Seq<usize>) -> bool {
    forall|i: int| 0 <= i < rows.len() ==> g.active[(#[trigger] rows[i]) as int].filters.len() == 0
}

/// The attempts of a round, in order: one that finds nothing to verify hands over to the next.
pub open spec fn attempts_of(g: GenState, rows: Seq<usize>) -> Seq<Attempt> {
    let ngram = if unfiltered(g, rows) && g.ngram_match_min > 0 {
        seq![Attempt::NGram]
    } else {
        seq![]
    };
    let model = if unfiltered(g, rows) && g.spec != SpecKind::Nothing {
        seq![Attempt::Model]
    } else {
        seq![]
    };
    if rows.len() == 0 {
        seq![]
    } else {
        ngram + model + seq![Attempt::Plain]
    }
}

/// What a pass over the rows hands back beside the logits.
#[derive(Clone, Copy, Debug, PartialEq, Eq, Structural)]
pub enum Pass {
    /// The outputs of the drafter's context layers.
    Taps,
    /// The trunk's hidden states.
    Hidden,
    /// Nothing. `history` where the recurrent layers keep every state of the pass.
    Logits { history: bool },
}

/// The pass that verifies drafts.
pub open spec fn verify_pass(g: GenState, a: Attempt) -> Pass {
    if g.spec == SpecKind::DFlash2 {
        Pass::Taps
    } else if g.spec == SpecKind::Mtp && a == Attempt::Model {
        Pass::Hidden
    } else {
        Pass::Logits { history: g.cache == CacheKind::Hybrid }
    }
}

/// A pass that verifies drafts of one length.
pub struct Verification {
    /// How many places each row has: its token and its draft.
    pub q_len: i64,
    pub drafts: Vec<Vec<i64>>,
    pub batch: Batch,
    pub pass: Pass,
}

/// What is done for a row once its draft is verified.
#[derive(Clone, Copy, Debug, PartialEq, Eq)]
pub struct RowWork {
    /// The recurrent state goes back to this many places of the pass: slot, places kept, and
    /// places fed.
    pub rewind: Option<(i64, i64, i64)>,
    /// The drafter's window takes these places of the pass: slot, places, and the first place.
    pub ingest: Option<(usize, i64, i64)>,
    /// The head's cache takes the confirmed tokens: how many, and the place they follow.
    pub sync: Option<(usize, i64)>,
}

pub open spec fn window_slot(s: JobState) -> usize {
    if s.slot >= 0 {
        s.slot as usize
    } else {
        0
    }
}

pub open spec fn row_work_of(g: GenState, s: JobState, a: Attempt, taken: int, drafted: int) -> RowWork {
    RowWork {
        rewind: if g.cache == CacheKind::Hybrid {
            Some((s.slot, taken as i64, (drafted + 1) as i64))
        } else {
            None
        },
        ingest: if g.spec == SpecKind::DFlash2 && window_slot(s) < g.dflash2_slots {
            Some((window_slot(s), taken as i64, s.kv_pos))
        } else {
            None
        },
        sync: if g.spec == SpecKind::Mtp && a == Attempt::Model {
            Some(((taken - 1) as usize, s.kv_pos))
        } else {
            None
        },
    }
}

/// A chunk of a prompt that is ingested.
pub struct Chunk {
    pub start: i64,
    pub end: i64,
    pub tokens: Vec<i64>,
    pub block: Vec<i32>,
    pub slot: i32,
    pub pass: Pass,
    /// The slot whose drafter's window takes the outputs.
    pub window: Option<usize>,
}

/// The pass that ingests a chunk.
pub open spec fn chunk_pass(g: GenState, s: JobState) -> Pass {
    if g.spec == SpecKind::DFlash2 {
        Pass::Taps
    } else if g.spec == SpecKind::Mtp && s.spec_prime_from < s.prompt_len {
        Pass::Hidden
    } else {
        Pass::Logits { history: false }
    }
}

/// Whether a chunk is the next one of a job.
pub open spec fn comes_next(g: GenState, s: JobState, c: Chunk) -> bool {
    &&& c.start == s.kv_pos
    &&& c.end == chunk_end(s.kv_pos as int, s.prompt_len as int, g.max_chunk as int)
    &&& c.tokens@ == s.seq.subrange(c.start as int, c.end as int)
    &&& c.block@ == s.block
    &&& c.slot == slot_fed(s.slot)
    &&& c.pass == chunk_pass(g, s)
    &&& c.window == if g.spec == SpecKind::DFlash2 && window_slot(s) < g.dflash2_slots {
        Some(window_slot(s))
    } else {
        None
    }
}

/// What primes the speculator for a job.
pub enum Priming {
    Nothing,
    /// The draft model ingests the prompt.
    Prompt { tokens: Vec<i64>, block: Vec<i32> },
    /// The head ingests the last token of the prompt, with the state that was carried over.
    Last { token: i64, place: i64, block: Vec<i32> },
}

/// A single token that is fed.
pub struct Single {
    pub token: i64,
    pub place: i64,
    pub block: Vec<i32>,
}

/// What drafts for the rows of a round.
pub enum Drafting {
    /// Nothing: the rows are decoded without a draft.
    Nothing,
    /// The draft model, from these tokens on.
    Model { singles: Vec<Single> },
    /// Nothing yet: the rows take a plain step first, with the trunk's hidden states.
    Plain,
    /// The head, from these tokens on.
    Head { singles: Vec<Single> },
    /// The drafter, with the windows of these slots and behind these tokens.
    Window { slots: Vec<usize>, anchors: Vec<i64> },
}

/// Whether `v` holds for each row the token that is fed next, its place, and the job's own pages or
/// the draft model's.
pub open spec fn fed_next(g: GenState, rows: Seq<usize>, own: bool, v: Seq<Single>) -> bool {
    &&& v.len() == rows.len()
    &&& forall|i: int| 0 <= i < rows.len() ==> {
        let s = g.active[rows[i] as int];
        &&& (#[trigger] v[i]).token == s.seq[s.kv_pos as int]
        &&& v[i].place == s.kv_pos
        &&& v[i].block@ == if own {
            s.block
        } else {
            s.draft_block
        }
    }
}

/// Whether each row has a window.
pub open spec fn all_windowed(g: GenState, rows: Seq<usize>) -> bool {
    forall|i: int| 0 <= i < rows.len() ==> window_slot(g.active[(#[trigger] rows[i]) as int]) < g.dflash2_slots
}

/// Whether a row has no hidden state, or its first token is healed.
pub open spec fn behind(g: GenState, rows: Seq<usize>, hidden: Seq<bool>) -> bool {
    exists|i: int| 0 <= i < rows.len() && (!hidden[i] || g.active[(#[trigger] rows[i]) as int].heal_pending)
}

/// Whether `d` is what drafts for the rows, where `hidden` tells which have the trunk's last
/// hidden state.
pub open spec fn drafts_next(g: GenState, rows: Seq<usize>, hidden: Seq<bool>, d: Drafting) -> bool {
    match g.spec {
        SpecKind::Nothing => d is Nothing,
        SpecKind::Draft => d matches Drafting::Model { singles } && fed_next(g, rows, false, singles@),
        SpecKind::Mtp => if behind(g, rows, hidden) {
            d is Plain
        } else {
            d matches Drafting::Head { singles } && fed_next(g, rows, true, singles@)
        },
        SpecKind::DFlash2 => if all_windowed(g, rows) {
            &&& d matches Drafting::Window { slots, anchors }
            &&& slots@ == Seq::new(rows.len(), |i: int| window_slot(g.active[rows[i] as int]))
            &&& anchors@ == Seq::new(
                rows.len(),
                |i: int| g.active[rows[i] as int].seq[g.active[rows[i] as int].kv_pos as int],
            )
        } else {
            d is Nothing
        },
    }
}

fn token_at(v: &Vec<i64>, place: i64) -> (r: i64)
    requires
        0 <= place < v@.len(),
    ensures
        r == v@[place as int],
{
    let n: usize = v.len();
    assert(place < n);
    v[place as usize]
}

fn copy_tokens(v: &Vec<i64>, from: i64, to: i64) -> (r: Vec<i64>)
    requires
        0 <= from <= to <= v@.len(),
    ensures
        r@ == v@.subrange(from as int, to as int),
{
    let mut r: Vec<i64> = Vec::new();
    let n: usize = v.len();
    assert(to <= n);
    let to: usize = to as usize;
    let from: usize = from as usize;
    let mut i: usize = from;
    while i < to
        invariant
            from <= i <= to <= v.len(),
            r@ == v@.subrange(from as int, i as int),
        decreases to - i,
    {
        r.push(v[i]);
        i = i + 1;
        assert(r@ =~= v@.subrange(from as int, i as int));
    }
    r
}

fn all_but_last(v: &Vec<i64>) -> (r: Vec<i64>)
    requires
        v@.len() > 0,
    ensures
        r@ == v@.drop_last(),
{
    let mut r: Vec<i64> = Vec::new();
    let mut i: usize = 0;
    while i < v.len() - 1
        invariant
            i < v.len(),
            r@ == v@.take(i as int),
        decreases v.len() - i,
    {
        r.push(v[i]);
        i = i + 1;
        assert(r@ =~= v@.take(i as int));
    }
    assert(r@ =~= v@.drop_last());
    r
}

fn copy_block(v: &Vec<i32>) -> (r: Vec<i32>)
    ensures
        r@ == v@,
{
    let mut r: Vec<i32> = Vec::new();
    let mut i: usize = 0;
    while i < v.len()
        invariant
            i <= v.len(),
            r@ == v@.take(i as int),
        decreases v.len() - i,
    {
        r.push(v[i]);
        i = i + 1;
        assert(r@ =~= v@.take(i as int));
    }
    assert(r@ =~= v@);
    r
}

impl Generator {
    /// The attempts of a round on the rows, in order.
    pub fn attempts(&self, rows: &Vec<usize>) -> (r: Vec<Attempt>)
        requires
            forall|i: int| 0 <= i < rows@.len() ==> (#[trigger] rows@[i]) < self.state().active.len(),
        ensures
            r@ == attempts_of(self.state(), rows@),
    {
        let mut r: Vec<Attempt> = Vec::new();
        if rows.len() == 0 {
            return r;
        }
        let free = self.may_speculate(rows);
        assert(free == unfiltered(self.state(), rows@));
        if free && self.ngram_match_min > 0 {
            r.push(Attempt::NGram);
        }
        if free && self.spec != SpecKind::Nothing {
            r.push(Attempt::Model);
        }
        r.push(Attempt::Plain);
        assert(r@ =~= attempts_of(self.state(), rows@));
        r
    }

    /// What followed the last tokens of each row where they stood before: `matches` are the
    /// longest earlier occurrences, from and to.
    pub fn ngram_drafts(&self, rows: &Vec<usize>, matches: &Vec<(i64, i64)>) -> (r: Vec<Vec<i64>>)
        requires
            self.inv(),
            forall|i: int| 0 <= i < rows@.len() ==> (#[trigger] rows@[i]) < self.state().active.len(),
            matches@.len() == rows@.len(),
            self.state().num_draft_tokens >= 0,
            self.state().ngram_match_min <= i64::MAX,
            forall|i: int|
                0 <= i < matches@.len() ==> 0 <= (#[trigger] matches@[i]).0 <= matches@[i].1 && matches@[i].1
                    + self.state().num_draft_tokens <= i64::MAX,
        ensures
            r@.len() == rows@.len(),
            forall|i: int|
                0 <= i < rows@.len() ==> (#[trigger] r@[i])@ == ngram_draft(
                    self.state().active[rows@[i] as int],
                    matches@[i].0 as int,
                    matches@[i].1 as int,
                    self.state().num_draft_tokens as int,
                    self.state().ngram_match_min as int,
                ),
    {
        let mut r: Vec<Vec<i64>> = Vec::new();
        let mut k: usize = 0;
        while k < rows.len()
            invariant
                k <= rows@.len(),
                self.inv(),
                r@.len() == k,
                matches@.len() == rows@.len(),
                self.state().num_draft_tokens >= 0,
                self.state().ngram_match_min <= i64::MAX,
                forall|i: int| 0 <= i < rows@.len() ==> (#[trigger] rows@[i]) < self.state().active.len(),
                forall|i: int|
                    0 <= i < matches@.len() ==> 0 <= (#[trigger] matches@[i]).0 <= matches@[i].1 && matches@[i].1
                        + self.state().num_draft_tokens <= i64::MAX,
                forall|i: int|
                    0 <= i < k ==> (#[trigger] r@[i])@ == ngram_draft(
                        self.state().active[rows@[i] as int],
                        matches@[i].0 as int,
                        matches@[i].1 as int,
                        self.state().num_draft_tokens as int,
                        self.state().ngram_match_min as int,
                    ),
            decreases rows@.len() - k,
        {
            let j: usize = rows[k];
            assert(rows@[k as int] < self.state().active.len());
            assert(runs(self.state(), self.state().active[j as int]));
            assert(self.active@[j as int].parts_ok());
            assert(self.state().active[j as int] == self.active@[j as int]@);
            let (beg, end) = matches[k];
            assert(0 <= matches@[k as int].0);
            r.push(self.active[j].get_ngram_draft(beg, end, self.num_draft_tokens, self.ngram_match_min));
            k = k + 1;
        }
        r
    }

    /// The pass that verifies the drafts of the rows, cut to the shortest; none where that one is
    /// empty.
    pub fn verification(&self, rows: &Vec<usize>, drafts: Vec<Vec<i64>>, attempt: Attempt) -> (r: Option<Verification>)
        requires
            self.inv(),
            forall|i: int| 0 <= i < rows@.len() ==> (#[trigger] rows@[i]) < self.state().active.len(),
            drafts@.len() == rows@.len(),
            self.state().num_draft_tokens < i64::MAX,
        ensures
            ({
                let g = self.state();
                let n = shortest(rows_of(drafts@), g.num_draft_tokens as int);
                match r {
                    None => n == 0,
                    Some(v) => {
                        let ps = picked(g.active, rows@);
                        &&& n > 0
                        &&& v.q_len == n + 1
                        &&& v.pass == verify_pass(g, attempt)
                        &&& v.drafts@.len() == drafts@.len()
                        &&& forall|i: int| 0 <= i < drafts@.len() ==> (#[trigger] v.drafts@[i])@ == drafts@[i]@.take(n)
                        &&& v.batch.max_pages == widest(ps)
                        &&& v.batch.feed@ == fed_tokens(ps, rows_of(v.drafts@))
                        &&& v.batch.seqlens@ == Seq::new(rows@.len(), |i: int| ps[i].kv_pos as i32)
                        &&& v.batch.slots@ == Seq::new(rows@.len(), |i: int| slot_fed(ps[i].slot))
                        &&& v.batch.block@ == block_table(ps, v.batch.max_pages as int)
                    },
                }
            }),
    {
        let ghost given = drafts@;
        let mut drafts = drafts;
        let n: i64 = trim_drafts(&mut drafts, self.num_draft_tokens);
        if n == 0 {
            return None;
        }
        proof {
            lemma_shortest(rows_of(given), self.num_draft_tokens as int);
        }
        let batch = self.pack(rows, &drafts);
        let pass = if self.spec == SpecKind::DFlash2 {
            Pass::Taps
        } else if self.spec == SpecKind::Mtp && attempt == Attempt::Model {
            Pass::Hidden
        } else {
            Pass::Logits { history: self.cache == CacheKind::Hybrid }
        };
        Some(Verification { q_len: n + 1, drafts, batch, pass })
    }

    /// What is done for a row of which `taken` tokens came of a draft of `drafted`.
    pub fn row_work(&self, j: usize, attempt: Attempt, taken: usize, drafted: usize) -> (r: RowWork)
        requires
            j < self.state().active.len(),
            1 <= taken <= drafted + 1,
            drafted < i64::MAX,
        ensures
            r == row_work_of(self.state(), self.state().active[j as int], attempt, taken as int, drafted as int),
    {
        let job = &self.active[j];
        assert(self.state().active[j as int] == job@);
        let slot: usize = if job.slot >= 0 {
            job.slot as usize
        } else {
            0
        };
        RowWork {
            rewind: if self.cache == CacheKind::Hybrid {
                Some((job.slot, taken as i64, drafted as i64 + 1))
            } else {
                None
            },
            ingest: if self.spec == SpecKind::DFlash2 && slot < self.dflash2_slots {
                Some((slot, taken as i64, job.kv_pos))
            } else {
                None
            },
            sync: if self.spec == SpecKind::Mtp && attempt == Attempt::Model {
                Some((taken - 1, job.kv_pos))
            } else {
                None
            },
        }
    }

    /// Whether the best token may be taken for every row at once: each is sampled greedily, and
    /// none is healed or filtered.
    pub fn can_take_best(&self, rows: &Vec<usize>, greedy: &Vec<bool>) -> (r: bool)
        requires
            forall|i: int| 0 <= i < rows@.len() ==> (#[trigger] rows@[i]) < self.state().active.len(),
            greedy@.len() == rows@.len(),
        ensures
            r == forall|i: int|
                0 <= i < rows@.len() ==> greedy@[i] && !self.state().active[(#[trigger] rows@[i]) as int].heal_pending
                    && self.state().active[rows@[i] as int].filters.len() == 0,
    {
        let mut k: usize = 0;
        while k < rows.len()
            invariant
                k <= rows@.len(),
                greedy@.len() == rows@.len(),
                forall|i: int| 0 <= i < rows@.len() ==> (#[trigger] rows@[i]) < self.state().active.len(),
                forall|i: int|
                    0 <= i < k ==> greedy@[i] && !self.state().active[(#[trigger] rows@[i]) as int].heal_pending
                        && self.state().active[rows@[i] as int].filters.len() == 0,
            decreases rows@.len() - k,
        {
            assert(rows@[k as int] < self.state().active.len());
            let job = &self.active[rows[k]];
            assert(self.state().active[rows@[k as int] as int] == job@);
            if !greedy[k] || job.heal_pending || job.filters.len() > 0 {
                return false;
            }
            k = k + 1;
        }
        true
    }

    /// The chunk of a job's prompt that is ingested next; none where the prompt is ingested.
    pub fn chunk(&self, j: usize) -> (r: Option<Chunk>)
        requires
            self.inv(),
            j < self.state().active.len(),
        ensures
            ({
                let g = self.state();
                let s = g.active[j as int];
                match r {
                    None => prefilled(s),
                    Some(c) => !prefilled(s) && comes_next(g, s, c),
                }
            }),
    {
        assert(runs(self.state(), self.state().active[j as int]));
        assert(self.state().active[j as int] == self.active@[j as int]@);
        match self.next_chunk(j) {
            None => None,
            Some((start, end)) => {
                proof {
                    let s = self.state().active[j as int];
                    chunks_go_forward(s.kv_pos as int, s.prompt_len as int, self.state().max_chunk as int);
                }
                let job = &self.active[j];
                let slot: usize = if job.slot >= 0 {
                    job.slot as usize
                } else {
                    0
                };
                let pass = if self.spec == SpecKind::DFlash2 {
                    Pass::Taps
                } else if self.spec == SpecKind::Mtp && job.spec_prime_from < job.prompt_len {
                    Pass::Hidden
                } else {
                    Pass::Logits { history: false }
                };
                Some(
                    Chunk {
                        start,
                        end,
                        tokens: copy_tokens(&job.seq, start, end),
                        block: copy_block(&job.block),
                        slot: if job.slot >= 0 {
                            job.slot as i32
                        } else {
                            0
                        },
                        pass,
                        window: if self.spec == SpecKind::DFlash2 && slot < self.dflash2_slots {
                            Some(slot)
                        } else {
                            None
                        },
                    },
                )
            },
        }
    }

    /// What primes the speculator for a job; `carried` where a hidden state of its prompt was
    /// carried over.
    pub fn priming(&self, j: usize, carried: bool) -> (r: Priming)
        requires
            self.inv(),
            j < self.state().active.len(),
        ensures
            ({
                let s = self.state().active[j as int];
                match self.state().spec {
                    SpecKind::Draft => r matches Priming::Prompt { tokens, block } && tokens@ == s.seq.take(
                        s.prompt_len as int,
                    ) && block@ == s.draft_block,
                    SpecKind::Mtp => if carried {
                        r matches Priming::Last { token, place, block } && token == s.seq[s.prompt_len - 1] && place
                            == s.prompt_len - 1 && block@ == s.block
                    } else {
                        r is Nothing
                    },
                    _ => r is Nothing,
                }
            }),
    {
        assert(runs(self.state(), self.state().active[j as int]));
        assert(self.state().active[j as int] == self.active@[j as int]@);
        let job = &self.active[j];
        if self.spec == SpecKind::Draft {
            Priming::Prompt {
                tokens: copy_tokens(&job.seq, 0, job.prompt_len),
                block: copy_block(&job.draft_block),
            }
        } else if self.spec == SpecKind::Mtp && carried {
            let place: i64 = job.prompt_len - 1;
            Priming::Last { token: token_at(&job.seq, place), place, block: copy_block(&job.block) }
        } else {
            Priming::Nothing
        }
    }

    /// Whether the rows take a plain step before the head can draft for them: `hidden` tells which
    /// have the trunk's last hidden state.
    pub fn needs_plain(&self, rows: &Vec<usize>, hidden: &Vec<bool>) -> (r: bool)
        requires
            forall|i: int| 0 <= i < rows@.len() ==> (#[trigger] rows@[i]) < self.state().active.len(),
            hidden@.len() == rows@.len(),
        ensures
            r == behind(self.state(), rows@, hidden@),
    {
        let mut k: usize = 0;
        while k < rows.len()
            invariant
                k <= rows@.len(),
                hidden@.len() == rows@.len(),
                forall|i: int| 0 <= i < rows@.len() ==> (#[trigger] rows@[i]) < self.state().active.len(),
                forall|i: int|
                    0 <= i < k ==> hidden@[i] && !self.state().active[(#[trigger] rows@[i]) as int].heal_pending,
            decreases rows@.len() - k,
        {
            assert(rows@[k as int] < self.state().active.len());
            let job = &self.active[rows[k]];
            assert(self.state().active[rows@[k as int] as int] == job@);
            if !hidden[k] || job.heal_pending {
                return true;
            }
            k = k + 1;
        }
        false
    }

    /// The rows whose speculator is not primed.
    pub fn unprimed(&self, rows: &Vec<usize>) -> (r: Vec<usize>)
        requires
            forall|i: int| 0 <= i < rows@.len() ==> (#[trigger] rows@[i]) < self.state().active.len(),
        ensures
            r@ == rows@.filter(|j: usize| !self.state().active[j as int].spec_primed),
    {
        let mut r: Vec<usize> = Vec::new();
        let mut k: usize = 0;
        let ghost open = |j: usize| !self.state().active[j as int].spec_primed;
        assert(rows@.take(0) =~= seq![]);
        while k < rows.len()
            invariant
                k <= rows@.len(),
                forall|i: int| 0 <= i < rows@.len() ==> (#[trigger] rows@[i]) < self.state().active.len(),
                open == (|j: usize| !self.state().active[j as int].spec_primed),
                r@ == rows@.take(k as int).filter(open),
            decreases rows@.len() - k,
        {
            let j: usize = rows[k];
            assert(rows@[k as int] < self.state().active.len());
            assert(self.state().active[j as int] == self.active@[j as int]@);
            proof {
                assert(rows@.take(k + 1).drop_last() =~= rows@.take(k as int));
                reveal(Seq::filter);
            }
            if !self.active[j].spec_primed {
                r.push(j);
            }
            k = k + 1;
        }
        assert(rows@.take(rows@.len() as int) =~= rows@);
        r
    }

    /// The slots of the rows' windows; none where a row has no window.
    pub fn window_slots(&self, rows: &Vec<usize>) -> (r: Option<Vec<usize>>)
        requires
            forall|i: int| 0 <= i < rows@.len() ==> (#[trigger] rows@[i]) < self.state().active.len(),
        ensures
            match r {
                Some(v) => all_windowed(self.state(), rows@) && v@ == Seq::new(
                    rows@.len(),
                    |i: int| window_slot(self.state().active[rows@[i] as int]),
                ),
                None => !all_windowed(self.state(), rows@),
            },
    {
        let mut v: Vec<usize> = Vec::new();
        let mut k: usize = 0;
        while k < rows.len()
            invariant
                k <= rows@.len(),
                forall|i: int| 0 <= i < rows@.len() ==> (#[trigger] rows@[i]) < self.state().active.len(),
                v@ == Seq::new(k as nat, |i: int| window_slot(self.state().active[rows@[i] as int])),
                forall|i: int|
                    0 <= i < k ==> window_slot(self.state().active[(#[trigger] rows@[i]) as int])
                        < self.state().dflash2_slots,
            decreases rows@.len() - k,
        {
            let j: usize = rows[k];
            assert(rows@[k as int] < self.state().active.len());
            assert(self.state().active[j as int] == self.active@[j as int]@);
            let slot: usize = if self.active[j].slot >= 0 {
                self.active[j].slot as usize
            } else {
                0
            };
            if slot >= self.dflash2_slots {
                return None;
            }
            v.push(slot);
            k = k + 1;
            assert(v@ =~= Seq::new(k as nat, |i: int| window_slot(self.state().active[rows@[i] as int])));
        }
        Some(v)
    }

    /// What drafts for the rows. `hidden` tells which have the trunk's last hidden state.
    pub fn drafting(&self, rows: &Vec<usize>, hidden: &Vec<bool>) -> (r: Drafting)
        requires
            self.inv(),
            forall|i: int| 0 <= i < rows@.len() ==> (#[trigger] rows@[i]) < self.state().active.len(),
            hidden@.len() == rows@.len(),
        ensures
            drafts_next(self.state(), rows@, hidden@, r),
    {
        match self.spec {
            SpecKind::Nothing => Drafting::Nothing,
            SpecKind::Draft => Drafting::Model { singles: self.singles(rows, false) },
            SpecKind::Mtp => if self.needs_plain(rows, hidden) {
                Drafting::Plain
            } else {
                Drafting::Head { singles: self.singles(rows, true) }
            },
            SpecKind::DFlash2 => match self.window_slots(rows) {
                None => Drafting::Nothing,
                Some(slots) => {
                    let singles = self.singles(rows, false);
                    let ghost g = self.state();
                    let mut anchors: Vec<i64> = Vec::new();
                    let mut k: usize = 0;
                    while k < singles.len()
                        invariant
                            k <= singles@.len(),
                            fed_next(g, rows@, false, singles@),
                            anchors@ == Seq::new(
                                k as nat,
                                |i: int| g.active[rows@[i] as int].seq[g.active[rows@[i] as int].kv_pos as int],
                            ),
                        decreases singles@.len() - k,
                    {
                        anchors.push(singles[k].token);
                        k = k + 1;
                        assert(anchors@ =~= Seq::new(
                            k as nat,
                            |i: int| g.active[rows@[i] as int].seq[g.active[rows@[i] as int].kv_pos as int],
                        ));
                    }
                    Drafting::Window { slots, anchors }
                },
            },
        }
    }

    /// For each row the token that is fed next, its place, and the job's own pages or the draft
    /// model's.
    pub fn singles(&self, rows: &Vec<usize>, own: bool) -> (r: Vec<Single>)
        requires
            self.inv(),
            forall|i: int| 0 <= i < rows@.len() ==> (#[trigger] rows@[i]) < self.state().active.len(),
        ensures
            fed_next(self.state(), rows@, own, r@),
    {
        let mut r: Vec<Single> = Vec::new();
        let mut k: usize = 0;
        while k < rows.len()
            invariant
                k <= rows@.len(),
                self.inv(),
                r@.len() == k,
                forall|i: int| 0 <= i < rows@.len() ==> (#[trigger] rows@[i]) < self.state().active.len(),
                forall|i: int| 0 <= i < k ==> {
                    let s = self.state().active[rows@[i] as int];
                    &&& (#[trigger] r@[i]).token == s.seq[s.kv_pos as int]
                    &&& r@[i].place == s.kv_pos
                    &&& r@[i].block@ == if own {
                        s.block
                    } else {
                        s.draft_block
                    }
                },
            decreases rows@.len() - k,
        {
            let j: usize = rows[k];
            assert(rows@[k as int] < self.state().active.len());
            assert(runs(self.state(), self.state().active[j as int]));
            assert(self.state().active[j as int] == self.active@[j as int]@);
            let job = &self.active[j];
            let block = if own {
                copy_block(&job.block)
            } else {
                copy_block(&job.draft_block)
            };
            r.push(Single { token: token_at(&job.seq, job.kv_pos), place: job.kv_pos, block });
            k = k + 1;
        }
        r
    }

    /// What is fed to the two contexts of a guided job: to its own, and to the negative one.
    pub fn guidance(&self, j: usize) -> (r: (Single, Single))
        requires
            self.inv(),
            j < self.state().active.len(),
            self.state().active[j as int].neg_seq is Some,
            self.state().active[j as int].cfg_primed,
        ensures
            ({
                let s = self.state().active[j as int];
                &&& r.0.token == s.seq[s.kv_pos as int]
                &&& r.0.place == s.kv_pos
                &&& r.0.block@ == s.block
                &&& r.1.token == s.neg_seq->0[s.neg_kv_pos as int]
                &&& r.1.place == s.neg_kv_pos
                &&& r.1.block@ == s.neg_block
            }),
    {
        assert(runs(self.state(), self.state().active[j as int]));
        assert(self.state().active[j as int] == self.active@[j as int]@);
        let job = &self.active[j];
        let token: i64 = match &job.neg_seq {
            Some(v) => token_at(v, job.neg_kv_pos),
            None => 0,
        };
        (
            Single { token: token_at(&job.seq, job.kv_pos), place: job.kv_pos, block: copy_block(&job.block) },
            Single { token, place: job.neg_kv_pos, block: copy_block(&job.neg_block) },
        )
    }

    /// The tokens of a job's negative context that are ingested before it is guided, and its
    /// pages.
    pub fn negative_prompt(&self, j: usize) -> (r: (Vec<i64>, Vec<i32>))
        requires
            self.inv(),
            j < self.state().active.len(),
            self.state().active[j as int].neg_seq is Some,
        ensures
            r.0@ == self.state().active[j as int].neg_seq->0.drop_last(),
            r.1@ == self.state().active[j as int].neg_block,
    {
        assert(runs(self.state(), self.state().active[j as int]));
        assert(self.state().active[j as int] == self.active@[j as int]@);
        let job = &self.active[j];
        let tokens: Vec<i64> = match &job.neg_seq {
            Some(v) => all_but_last(v),
            None => Vec::new(),
        };
        (tokens, copy_block(&job.neg_block))
    }
}

} // verus!
