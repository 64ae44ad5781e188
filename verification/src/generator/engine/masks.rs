//! What is fed to the device for a round, and which tokens it may choose.
use vstd::prelude::*;
use crate::filter::state::{
    apply_filters, filterings, filters_deny_what_the_grammars_refuse, hashed_apart, live, sets_now, sets_taken, together,
    FilterState, Filtering,
};
use crate::generator::batch::{block_table, fed_tokens, pack, picked, slot_fed, widest, Batch};
use crate::generator::engine::{runs, Generator};
use crate::generator::verify::rows_of as draft_rows;

verus! {

/// The flags of `width` tokens of which only these are allowed.
pub open spec fn only(allowed: Seq<i64>, width: nat) -> Seq<bool> {
    Seq::new(width, |t: int| allowed.contains(t as i64))
}

/// The flags of `vocab` tokens of which only these are allowed: where a flag is down, the logit
/// is masked.
pub fn allow_mask(vocab: usize, allowed: &Vec<i64>) -> (r: Vec<bool>)
    requires
        vocab <= i64::MAX,
        forall|i: int| 0 <= i < allowed.len() ==> 0 <= #[trigger] allowed[i] < vocab,
    ensures
        r@ == only(allowed@, vocab as nat),
{
    let mut r: Vec<bool> = Vec::new();
    while r.len() < vocab
        invariant
            r.len() <= vocab,
            forall|t: int| 0 <= t < r.len() ==> !#[trigger] r@[t],
        decreases vocab - r.len(),
    {
        r.push(false);
    }
    let mut i: usize = 0;
    while i < allowed.len()
        invariant
            vocab <= i64::MAX,
            forall|j: int| 0 <= j < allowed.len() ==> 0 <= #[trigger] allowed[j] < vocab,
            i <= allowed.len(),
            r.len() == vocab,
            forall|t: int| 0 <= t < r.len() ==> #[trigger] r@[t] == allowed@.take(i as int).contains(t as i64),
        decreases allowed.len() - i,
    {
        let ghost before = r@;
        let ghost some = allowed@.take(i as int);
        assert(0 <= allowed[i as int] < vocab);
        r.set(allowed[i] as usize, true);
        i = i + 1;
        proof {
            let more = allowed@.take(i as int);
            assert(more =~= some.push(allowed@[i - 1]));
            assert forall|t: int| 0 <= t < r.len() implies #[trigger] r@[t] == more.contains(t as i64) by {
                if t == allowed@[i - 1] {
                    assert(more[i - 1] == t as i64);
                } else {
                    assert(r@[t] == before[t]);
                    if some.contains(t as i64) {
                        let k = choose|k: int| 0 <= k < some.len() && some[k] == t as i64;
                        assert(more[k] == t as i64);
                    }
                    if more.contains(t as i64) {
                        let k = choose|k: int| 0 <= k < more.len() && more[k] == t as i64;
                        assert(some[k] == t as i64);
                    }
                }
            }
        }
    }
    assert(allowed@.take(i as int) =~= allowed@);
    assert(r@ =~= only(allowed@, vocab as nat));
    r
}

/// Whether no live filter's state shares its hash with another.
pub open spec fn apart(fs: Seq<Filtering>) -> bool {
    forall|i: int| 0 <= i < fs.len() && live(#[trigger] fs[i]) ==> hashed_apart(fs[i])
}

/// Where no live filter's state shares its hash with another, the mask of a job's filters denies
/// exactly what the live grammars refuse.
pub proof fn masks_deny_what_the_grammars_refuse(g: Generator, j: int, width: nat)
    requires
        g.inv(),
        0 <= j < g.state().active.len(),
        apart(g.state().active[j].filters),
    ensures
        together(g.state().active[j].filters, sets_now(g.filters_of(j)), width) == together(
            g.state().active[j].filters,
            sets_taken(g.state().active[j].filters),
            width,
        ),
{
    let fs = g.active@[j].filters@;
    let s = g.state().active[j];
    assert(runs(g.state(), s));
    assert(g.active@[j].parts_ok());
    assert(s.filters =~= filterings(fs));
    assert forall|i: int| 0 <= i < fs.len() && live((#[trigger] fs[i]).now()) implies hashed_apart(fs[i].now()) by {
        assert(live(s.filters[i]));
    }
    filters_deny_what_the_grammars_refuse(fs, width);
}

impl Generator {
    /// The filters of job `j`.
    pub closed spec fn filters_of(&self, j: int) -> Seq<FilterState> {
        self.active@[j].filters@
    }

    /// The flags of the tokens that may stand for the healed token of job `j`, while it is to be
    /// sampled.
    pub fn heal_mask(&self, j: usize, vocab: usize) -> (r: Option<Vec<bool>>)
        requires
            j < self.state().active.len(),
            vocab <= i64::MAX,
            forall|i: int|
                0 <= i < self.state().active[j as int].heal_allowed.len() ==> 0
                    <= #[trigger] self.state().active[j as int].heal_allowed[i] < vocab,
        ensures
            match r {
                Some(m) => self.state().active[j as int].heal_pending && m@ == only(
                    self.state().active[j as int].heal_allowed,
                    vocab as nat,
                ),
                None => !self.state().active[j as int].heal_pending,
            },
    {
        let job = &self.active[j];
        assert(self.state().active[j as int] == job@);
        if job.heal_pending {
            assert forall|i: int| 0 <= i < job.heal_allowed.len() implies 0 <= #[trigger] job.heal_allowed[i] < vocab by {
                assert(0 <= self.state().active[j as int].heal_allowed[i] < vocab);
            }
            Some(allow_mask(vocab, &job.heal_allowed))
        } else {
            None
        }
    }

    /// The flags of the tokens that the filters of job `j` allow together.
    pub fn filter_mask(&mut self, j: usize, width: usize) -> (r: Option<Vec<bool>>)
        requires
            old(self).inv(),
            j < old(self).state().active.len(),
        ensures
            final(self).inv(),
            final(self).state() == old(self).state(),
            match r {
                Some(m) => m@.len() == width && together(
                    old(self).state().active[j as int].filters,
                    sets_now(old(self).filters_of(j as int)),
                    width as nat,
                ) == Some(m@),
                None => together(
                    old(self).state().active[j as int].filters,
                    sets_now(old(self).filters_of(j as int)),
                    width as nat,
                ) is None,
            },
            apart(old(self).state().active[j as int].filters) ==> match r {
                Some(m) => together(
                    old(self).state().active[j as int].filters,
                    sets_taken(old(self).state().active[j as int].filters),
                    width as nat,
                ) == Some(m@),
                None => together(
                    old(self).state().active[j as int].filters,
                    sets_taken(old(self).state().active[j as int].filters),
                    width as nat,
                ) is None,
            },
            forall|k: int|
                0 <= k < old(self).state().active.len() && k != j ==> #[trigger] final(self).filters_of(k) == old(
                    self,
                ).filters_of(k),
    {
        let ghost g = self.state();
        let ghost act = self.active@;
        let ghost s = g.active[j as int];
        let ghost fs = act[j as int].filters@;
        assert(runs(g, s));
        assert(s.filters =~= filterings(fs));
        assert(act[j as int].parts_ok());
        let r = apply_filters(&mut self.active[j].filters, width);
        proof {
            if apart(s.filters) {
                assert forall|i: int| 0 <= i < fs.len() && live((#[trigger] fs[i]).now()) implies hashed_apart(
                    fs[i].now(),
                ) by {
                    assert(live(s.filters[i]));
                }
                filters_deny_what_the_grammars_refuse(fs, width as nat);
            }
            let now = self.active@[j as int];
            assert(now@.filters =~= s.filters) by {
                assert forall|i: int| 0 <= i < s.filters.len() implies now@.filters[i] == s.filters[i] by {
                    assert(now.filters@[i].now() == act[j as int].filters@[i].now());
                }
            }
            assert(now@ =~= s);
            self.lemma_one_changed(*old(self), j as int);
            assert(self.state() =~= g) by {
                assert(self.state().active =~= g.active);
            }
        }
        r
    }

    /// What is fed for some rows, each with its draft.
    pub fn pack(&self, rows: &Vec<usize>, drafts: &Vec<Vec<i64>>) -> (b: Batch)
        requires
            self.inv(),
            forall|i: int| 0 <= i < rows@.len() ==> (#[trigger] rows@[i]) < self.state().active.len(),
            drafts@.len() == rows@.len(),
        ensures
            ({
                let ps = picked(self.state().active, rows@);
                &&& b.max_pages == widest(ps)
                &&& b.feed@ == fed_tokens(ps, draft_rows(drafts@))
                &&& b.seqlens@ == Seq::new(rows@.len(), |r: int| ps[r].kv_pos as i32)
                &&& b.slots@ == Seq::new(rows@.len(), |r: int| slot_fed(ps[r].slot))
                &&& b.block@ == block_table(ps, b.max_pages as int)
            }),
    {
        proof {
            assert forall|i: int| 0 <= i < self.active@.len() implies (#[trigger] self.active@[i]).inv() by {
                assert(runs(self.state(), self.state().active[i]));
            }
        }
        pack(&self.active, rows, drafts)
    }

    /// The serial number of job `j`.
    pub fn serial(&self, j: usize) -> (r: u64)
        requires
            j < self.state().active.len(),
        ensures
            r == self.state().active[j as int].serial,
    {
        self.active[j].serial
    }

    /// How many jobs run.
    pub fn num_active(&self) -> (r: usize)
        ensures
            r == self.state().active.len(),
    {
        self.active.len()
    }
}

} // verus!
