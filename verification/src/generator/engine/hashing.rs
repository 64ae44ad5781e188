//! The content hashes of complete pages, and the checkpoints of recurrent states.
use vstd::prelude::*;
use vstd::bytes::{spec_u128_from_le_bytes, u128_from_le_bytes};
use crate::generator::batch::states;
use crate::generator::engine::{lemma_runs_frame, page_bytes, runs, CacheKind, Effect, GenState, Generator};
use crate::generator::job::JobState;
use crate::paged::{bytes_opt, chained, hashed, page_tokens, Pages, Table};
use crate::recent::{lemma_renewed, renew, renewed};

verus! {

/// The pages after those of a job, from page `k` on, got their hashes as far as they are
/// complete; and up to which page.
pub open spec fn hashed_from(p: Pages, s: JobState, k: int) -> (Pages, int)
    decreases s.block.len() - k,
{
    if k < 0 || 256 * k + 256 > s.kv_pos || k >= s.block.len() {
        (p, k)
    } else {
        let prev = if k == 0 {
            None
        } else {
            page_bytes(p, s.block[k - 1])
        };
        let q = if p.hash[s.block[k] as int] is Some {
            p
        } else {
            hashed(p, s.block[k], spec_u128_from_le_bytes(chained(prev, page_tokens(s.seq, k))))
        };
        hashed_from(q, s, k + 1)
    }
}

/// The hash under which the recurrent state of a job can be kept: that of the page at whose end
/// the job stands.
pub open spec fn boundary_hash(p: Pages, s: JobState) -> Option<u128> {
    if s.kv_pos >= 256 && s.kv_pos % 256 == 0 && s.kv_pos / 256 - 1 < s.block.len() {
        p.hash[s.block[s.kv_pos / 256 - 1] as int]
    } else {
        None
    }
}

/// The checkpoints after a job's state is kept where it can be, and what the device does. The one
/// that was used longest ago goes where there are too many.
pub open spec fn checkpointed(ckpts: Seq<u128>, cap: int, p: Pages, s: JobState) -> (Seq<u128>, Seq<Effect>) {
    match boundary_hash(p, s) {
        Some(key) => if ckpts.contains(key) {
            (renewed(ckpts, key), seq![])
        } else if ckpts.len() + 1 > cap {
            (
                ckpts.push(key).drop_first(),
                seq![Effect::SaveState { slot: s.slot, key }, Effect::DropState { key: ckpts.push(key)[0] }],
            )
        } else {
            (ckpts.push(key), seq![Effect::SaveState { slot: s.slot, key }])
        },
        None => (ckpts, seq![]),
    }
}

/// The generator after job `j` got its page hashes and its checkpoint.
pub open spec fn hashed_job(g: GenState, j: int) -> (GenState, Seq<Effect>) {
    let s = g.active[j];
    let (p, n) = hashed_from(g.table.pages, s, s.hashed_pages as int);
    let t = JobState { hashed_pages: n as usize, ..s };
    let h = GenState { table: Table { pages: p, ..g.table }, active: g.active.update(j, t), ..g };
    if g.cache == CacheKind::Hybrid {
        let (ckpts, fx) = checkpointed(g.ckpts, g.ckpt_cap as int, p, t);
        (GenState { ckpts, ..h }, fx)
    } else {
        (h, seq![])
    }
}

/// The generator after the first `n` running jobs got their page hashes and checkpoints.
pub open spec fn hashed_jobs(g: GenState, n: nat) -> (GenState, Seq<Effect>)
    decreases n,
{
    if n == 0 {
        (g, seq![])
    } else {
        let (h, fx) = hashed_jobs(g, (n - 1) as nat);
        let (k, more) = hashed_job(h, n - 1);
        (k, fx + more)
    }
}

proof fn lemma_hashed_from(p: Pages, s: JobState, k: int)
    requires
        k >= 0,
    ensures
        hashed_from(p, s, k).1 >= k,
        k < s.block.len() ==> hashed_from(p, s, k).1 <= s.block.len(),
        k >= s.block.len() ==> hashed_from(p, s, k).1 == k,
    decreases s.block.len() - k,
{
    if !(256 * k + 256 > s.kv_pos || k >= s.block.len()) {
        let prev = if k == 0 {
            None
        } else {
            page_bytes(p, s.block[k - 1])
        };
        let q = if p.hash[s.block[k] as int] is Some {
            p
        } else {
            hashed(p, s.block[k], spec_u128_from_le_bytes(chained(prev, page_tokens(s.seq, k))))
        };
        lemma_hashed_from(q, s, k + 1);
    }
}

impl Generator {
    fn hash_pages_of(&mut self, j: usize)
        requires
            old(self).inv(),
            j < old(self).state().active.len(),
        ensures
            final(self).inv(),
            ({
                let g = old(self).state();
                let s = g.active[j as int];
                let (p, n) = hashed_from(g.table.pages, s, s.hashed_pages as int);
                final(self).state() == (GenState {
                    table: Table { pages: p, ..g.table },
                    active: g.active.update(j as int, JobState { hashed_pages: n as usize, ..s }),
                    ..g
                })
            }),
    {
        let ghost g = self.state();
        let ghost s = g.active[j as int];
        assert(runs(g, s));
        let ghost want = hashed_from(g.table.pages, s, s.hashed_pages as int);
        proof {
            lemma_hashed_from(g.table.pages, s, s.hashed_pages as int);
        }
        let mut k: usize = self.active[j].hashed_pages;
        let n: usize = self.active[j].block.len();
        let complete: usize = (self.active[j].kv_pos / 256) as usize;
        let len: usize = self.active[j].seq.len();
        assert(s.kv_pos < len);
        while k < complete && k < n
            invariant
                j < self.active@.len(),
                self.active == old(self).active,
                self.active@[j as int]@ == s,
                runs(g, s),
                g == old(self).state(),
                n == s.block.len(),
                len == s.seq.len(),
                complete == s.kv_pos as int / 256,
                s.kv_pos < len,
                self.pages.inv(),
                self.state() == (GenState { table: Table { pages: self.pages.pages(), ..g.table }, ..g }),
                self.queue == old(self).queue,
                s.hashed_pages <= k,
                k <= n || k == s.hashed_pages,
                hashed_from(self.pages.pages(), s, k as int) == want,
            decreases n - k,
        {
            let phys: i32 = self.active[j].block[k];
            let prev = if k == 0 {
                None
            } else {
                self.pages.page_hash(self.active[j].block[k - 1])
            };
            proof {
                vstd::bytes::lemma_auto_spec_u128_to_from_le_bytes();
                if k > 0 {
                    assert(bytes_opt(prev) == page_bytes(self.pages.pages(), s.block[k - 1]));
                }
            }
            assert(k * 256 + 256 <= len);
            let chunk = vstd::slice::slice_subrange(self.active[j].seq.as_slice(), k * 256, k * 256 + 256);
            assert(chunk@ =~= page_tokens(s.seq, k as int));
            self.pages.register_page_hash(phys, prev, chunk);
            k = k + 1;
        }
        let ghost p = self.pages.pages();
        assert((p, k as int) == want);
        let ghost mid = *self;
        self.active[j].hashed_pages = k;
        proof {
            let t = JobState { hashed_pages: k, ..s };
            let h = self.state();
            assert(self.active@[j as int]@ =~= t);
            assert(states(self.active@) =~= g.active.update(j as int, t)) by {
                assert forall|i: int| 0 <= i < g.active.len() && i != j implies states(self.active@)[i] == g.active[i] by {
                    assert(self.active@[i] == old(self).active@[i]);
                }
            }
            assert(h =~= (GenState {
                table: Table { pages: p, ..g.table },
                active: g.active.update(j as int, t),
                ..g
            }));
            assert forall|i: int| 0 <= i < h.active.len() implies runs(h, #[trigger] h.active[i]) by {
                assert(runs(g, g.active[i]));
            }
            assert forall|i: int| 0 <= i < self.active@.len() implies (#[trigger] self.active@[i]).parts_ok() by {
                assert(old(self).active@[i].parts_ok());
            }
        }
    }

    fn keep_state(&mut self, j: usize, effects: &mut Vec<Effect>)
        requires
            old(self).inv(),
            j < old(self).state().active.len(),
        ensures
            final(self).inv(),
            ({
                let g = old(self).state();
                let (ckpts, fx) = checkpointed(g.ckpts, g.ckpt_cap as int, g.table.pages, g.active[j as int]);
                &&& final(self).state() == (GenState { ckpts, ..g })
                &&& final(effects)@ == old(effects)@ + fx
            }),
    {
        let ghost g = self.state();
        let ghost s = g.active[j as int];
        let ghost fx0 = effects@;
        assert(runs(g, s));
        let at: i64 = self.active[j].kv_pos;
        let len: usize = self.active[j].seq.len();
        assert(at < len);
        let mut key: Option<u128> = None;
        if at >= 256 && at % 256 == 0 {
            let pidx: usize = at as usize / 256 - 1;
            if pidx < self.active[j].block.len() {
                match self.pages.page_hash(self.active[j].block[pidx]) {
                    Some(h) => {
                        key = Some(u128_from_le_bytes(h.as_slice()));
                    },
                    None => {},
                }
            }
        }
        assert(key == boundary_hash(g.table.pages, s));
        match key {
            Some(k) => {
                proof {
                    lemma_renewed(g.ckpts, k);
                }
                if self.has_checkpoint(k) {
                    renew(&mut self.ckpts, k);
                } else {
                    let slot: i64 = self.active[j].slot;
                    self.ckpts.push(k);
                    effects.push(Effect::SaveState { slot, key: k });
                    if self.ckpts.len() > self.ckpt_cap {
                        let gone = self.ckpts.remove(0);
                        assert(self.ckpts@ =~= g.ckpts.push(k).drop_first());
                        assert(g.ckpts.push(k) == renewed(g.ckpts, k));
                        effects.push(Effect::DropState { key: gone });
                    }
                }
            },
            None => {},
        }
        proof {
            let (ckpts, fx) = checkpointed(g.ckpts, g.ckpt_cap as int, g.table.pages, s);
            assert(effects@ =~= fx0 + fx);
            assert(self.state() =~= (GenState { ckpts, ..g }));
            lemma_runs_frame(g, self.state());
        }
    }

    /// Give the complete pages of the running jobs their content hashes, so that later jobs can
    /// share them, and keep the recurrent states that stand at a page's end. Does nothing where
    /// prefixes are not shared.
    pub fn hash_complete_pages(&mut self) -> (r: Vec<Effect>)
        requires
            old(self).inv(),
        ensures
            final(self).inv(),
            if old(self).state().table.sharing {
                (final(self).state(), r@) == hashed_jobs(old(self).state(), old(self).state().active.len())
            } else {
                final(self).state() == old(self).state() && r@.len() == 0
            },
    {
        let mut effects: Vec<Effect> = Vec::new();
        if !self.pages.dedup() {
            return effects;
        }
        let ghost g = self.state();
        let n: usize = self.active.len();
        let mut j: usize = 0;
        assert(effects@ =~= seq![]);
        while j < n
            invariant
                j <= n,
                n == g.active.len(),
                self.inv(),
                self.state().active.len() == n,
                (self.state(), effects@) == hashed_jobs(g, j as nat),
            decreases n - j,
        {
            let ghost h = self.state();
            let ghost fx = effects@;
            self.hash_pages_of(j);
            if self.cache == CacheKind::Hybrid {
                self.keep_state(j, &mut effects);
            }
            proof {
                let (k, more) = hashed_job(h, j as int);
                assert(self.state() =~= k);
                assert(effects@ =~= fx + more);
            }
            j = j + 1;
        }
        effects
    }
}

} // verus!
