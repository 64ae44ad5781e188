//! Requests with images: one at a time, beside the batch.
use vstd::prelude::*;
use crate::generator::engine::{cancelled, in_table, lemma_runs_frame, CacheKind, GenState, Generator};
use crate::generator::job::MmFinish;
use crate::paged::{page_count, pages_for, released, spare, taken_n, Table};

verus! {

/// Why a multimodal request is refused.
#[derive(Clone, Copy, Debug, PartialEq, Eq, Structural)]
pub enum MmRefusal {
    /// The cache is not a hybrid one.
    NotHybrid,
    /// It needs more pages than are free.
    NoPages { free: usize, need: usize },
    /// All recurrent slots are in use.
    NoSlot,
}

/// How many pages a multimodal request needs.
pub open spec fn mm_need(prompt_len: int, max_new: int) -> int {
    page_count(prompt_len + max_new + 1)
}

/// The generator after a multimodal request got its slot and its pages.
pub open spec fn mm_admitted(g: GenState, need: nat) -> (GenState, Seq<i32>) {
    let (p, ids) = taken_n(g.table.pages, need);
    (GenState { table: Table { pages: p, ..g.table }, slots_free: g.slots_free.drop_last(), ..g }, ids)
}

impl Generator {
    /// A slot and pages for a multimodal request, which runs by itself.
    pub fn mm_admit(&mut self, prompt_len: usize, max_new: usize) -> (r: Result<(i64, Vec<i32>), MmRefusal>)
        requires
            old(self).inv(),
            prompt_len + max_new <= i64::MAX - 1024,
            spare(old(self).state().table.pages) <= usize::MAX,
        ensures
            final(self).inv(),
            ({
                let g = old(self).state();
                let need = mm_need(prompt_len as int, max_new as int);
                match r {
                    Err(e) => {
                        &&& final(self).state() == g
                        &&& e == if g.cache != CacheKind::Hybrid {
                            MmRefusal::NotHybrid
                        } else if spare(g.table.pages) < need {
                            MmRefusal::NoPages { free: spare(g.table.pages) as usize, need: need as usize }
                        } else {
                            MmRefusal::NoSlot
                        }
                        &&& g.cache != CacheKind::Hybrid || spare(g.table.pages) < need || g.slots_free.len() == 0
                    },
                    Ok((slot, block)) => {
                        &&& g.cache == CacheKind::Hybrid
                        &&& spare(g.table.pages) >= need
                        &&& g.slots_free.len() > 0
                        &&& slot == g.slots_free.last()
                        &&& (final(self).state(), block@) == mm_admitted(g, need as nat)
                        &&& in_table(block@, g.table.size)
                    },
                }
            }),
    {
        let ghost g = self.state();
        if self.cache != CacheKind::Hybrid {
            return Err(MmRefusal::NotHybrid);
        }
        let need: i64 = pages_for(prompt_len as i64 + max_new as i64 + 1);
        let free: usize = self.pages.num_free();
        if (free as i128) < need as i128 {
            return Err(MmRefusal::NoPages { free, need: need as usize });
        }
        let slot: i64 = match self.slots_free.pop() {
            Some(x) => x,
            None => {
                assert(self.state() =~= g);
                return Err(MmRefusal::NoSlot);
            },
        };
        let mut block: Vec<i32> = Vec::new();
        match self.pages.alloc_pages(need as usize) {
            Ok(ids) => {
                block = ids;
            },
            Err(_) => {},
        }
        proof {
            assert(self.slots_free@ =~= g.slots_free.drop_last());
            assert(self.state() =~= mm_admitted(g, need as nat).0);
            lemma_runs_frame(g, self.state());
        }
        Ok((slot, block))
    }

    /// Give back what a multimodal request had.
    pub fn mm_release(&mut self, slot: i64, block: &Vec<i32>)
        requires
            old(self).inv(),
            in_table(block@, old(self).state().table.size),
        ensures
            final(self).inv(),
            final(self).state() == (GenState {
                table: Table {
                    pages: released(old(self).state().table.pages, block@),
                    ..old(self).state().table
                },
                slots_free: old(self).state().slots_free.push(slot),
                ..old(self).state()
            }),
    {
        let ghost g = self.state();
        self.pages.release(block.as_slice());
        self.slots_free.push(slot);
        proof {
            assert(self.state() =~= (GenState {
                table: Table { pages: released(g.table.pages, block@), ..g.table },
                slots_free: g.slots_free.push(slot),
                ..g
            }));
            lemma_runs_frame(g, self.state());
        }
    }

    /// Up to where the next chunk of a multimodal prompt is ingested, or `None` where only its
    /// last token is left.
    pub fn mm_chunk(&self, pos: i64, prompt_len: i64) -> (r: Option<i64>)
        requires
            self.inv(),
            0 <= pos,
            prompt_len > i64::MIN,
        ensures
            r == if pos >= prompt_len - 1 {
                None
            } else if pos + self.state().max_chunk <= prompt_len - 1 {
                Some((pos + self.state().max_chunk) as i64)
            } else {
                Some((prompt_len - 1) as i64)
            },
            r matches Some(e) ==> pos < e <= prompt_len - 1 && e - pos <= self.state().max_chunk && (e == prompt_len - 1
                || e - pos == self.state().max_chunk),
    {
        let last: i64 = prompt_len - 1;
        if pos >= last {
            None
        } else if self.max_chunk <= last - pos {
            Some(pos + self.max_chunk)
        } else {
            Some(last)
        }
    }
}

/// Whether a multimodal generation ends before its next token is shown.
pub fn mm_before(cancelled: bool, is_stop: bool) -> (r: Option<MmFinish>)
    ensures
        r == if cancelled {
            Some(MmFinish::Cancelled)
        } else if is_stop {
            Some(MmFinish::Stop)
        } else {
            None
        },
{
    if cancelled {
        Some(MmFinish::Cancelled)
    } else if is_stop {
        Some(MmFinish::Stop)
    } else {
        None
    }
}

/// Whether a multimodal generation ends after a token was shown; `generated` counts it.
pub fn mm_after(stop_string: bool, generated: usize, max_new: usize) -> (r: Option<MmFinish>)
    ensures
        r == if stop_string {
            Some(MmFinish::Stop)
        } else if generated >= max_new {
            Some(MmFinish::Length)
        } else {
            None
        },
{
    if stop_string {
        Some(MmFinish::Stop)
    } else if generated >= max_new {
        Some(MmFinish::Length)
    } else {
        None
    }
}

} // verus!
