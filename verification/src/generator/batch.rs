//! What is fed to the model for the rows of a round.
use vstd::prelude::*;
use crate::generator::job::{Job, JobState};
use crate::generator::verify::rows_of;

verus! {

/// The input of one forward pass over some jobs.
pub struct Batch {
    /// For each row the token at its place in the cache and its draft.
    pub feed: Vec<i64>,
    /// For each row its place in the cache.
    pub seqlens: Vec<i32>,
    /// For each row its recurrent slot, or 0.
    pub slots: Vec<i32>,
    /// For each row its pages, filled up with zeros to the width.
    pub block: Vec<i32>,
    /// The width of the block table.
    pub max_pages: usize,
}

/// The states of some jobs.
pub open spec fn states(v: Seq<Job>) -> Seq<JobState> {
    Seq::new(v.len(), |i: int| v[i]@)
}

/// The jobs of some rows.
pub open spec fn picked(jobs: Seq<JobState>, rows: Seq<usize>) -> Seq<JobState> {
    Seq::new(rows.len(), |r: int| jobs[rows[r] as int])
}

/// The most pages that one of the jobs holds.
pub open spec fn widest(jobs: Seq<JobState>) -> int
    decreases jobs.len(),
{
    if jobs.len() == 0 {
        0
    } else {
        let n = widest(jobs.drop_last());
        if jobs.last().block.len() > n {
            jobs.last().block.len() as int
        } else {
            n
        }
    }
}

/// Pages filled up with zeros.
pub open spec fn padded(block: Seq<i32>, width: int) -> Seq<i32> {
    Seq::new(
        width as nat,
        |p: int|
            if p < block.len() {
                block[p]
            } else {
                0i32
            },
    )
}

/// The block table of some jobs, row by row.
pub open spec fn block_table(jobs: Seq<JobState>, width: int) -> Seq<i32>
    decreases jobs.len(),
{
    if jobs.len() == 0 {
        seq![]
    } else {
        block_table(jobs.drop_last(), width) + padded(jobs.last().block, width)
    }
}

/// The tokens fed for some jobs with their drafts, row by row.
pub open spec fn fed_tokens(jobs: Seq<JobState>, drafts: Seq<Seq<i64>>) -> Seq<i64>
    decreases jobs.len(),
{
    if jobs.len() == 0 {
        seq![]
    } else {
        fed_tokens(jobs.drop_last(), drafts) + (seq![jobs.last().seq[jobs.last().kv_pos as int]] + drafts[jobs.len()
            - 1])
    }
}

/// A slot as it is fed.
pub open spec fn slot_fed(slot: i64) -> i32 {
    if slot >= 0 {
        slot as i32
    } else {
        0
    }
}

proof fn lemma_widest(jobs: Seq<JobState>, r: int)
    requires
        0 <= r < jobs.len(),
    ensures
        jobs[r].block.len() <= widest(jobs),
    decreases jobs.len(),
{
    if r < jobs.len() - 1 {
        lemma_widest(jobs.drop_last(), r);
        assert(jobs.drop_last()[r] == jobs[r]);
    }
}

/// The most pages that a job of `rows` holds.
pub fn max_pages(jobs: &Vec<Job>, rows: &Vec<usize>) -> (r: usize)
    requires
        forall|i: int| 0 <= i < rows@.len() ==> (#[trigger] rows@[i]) < jobs@.len(),
    ensures
        r == widest(picked(states(jobs@), rows@)),
{
    let ghost ps = picked(states(jobs@), rows@);
    let mut n: usize = 0;
    let mut r: usize = 0;
    assert(ps.take(0) =~= seq![]);
    while r < rows.len()
        invariant
            r <= rows@.len(),
            forall|i: int| 0 <= i < rows@.len() ==> (#[trigger] rows@[i]) < jobs@.len(),
            ps == picked(states(jobs@), rows@),
            n == widest(ps.take(r as int)),
        decreases rows@.len() - r,
    {
        assert(ps.take(r + 1).drop_last() =~= ps.take(r as int));
        assert(ps.take(r + 1).last() == jobs@[rows@[r as int] as int]@);
        let held = jobs[rows[r]].pages_held();
        if held > n {
            n = held;
        }
        r = r + 1;
    }
    assert(ps.take(r as int) =~= ps);
    n
}

/// What is fed for some rows, each with its draft.
pub fn pack(jobs: &Vec<Job>, rows: &Vec<usize>, drafts: &Vec<Vec<i64>>) -> (b: Batch)
    requires
        forall|i: int| 0 <= i < rows@.len() ==> (#[trigger] rows@[i]) < jobs@.len(),
        forall|i: int| 0 <= i < jobs@.len() ==> (#[trigger] jobs@[i]).inv(),
        drafts@.len() == rows@.len(),
    ensures
        b.max_pages == widest(picked(states(jobs@), rows@)),
        b.feed@ == fed_tokens(picked(states(jobs@), rows@), rows_of(drafts@)),
        b.seqlens@ == Seq::new(rows@.len(), |r: int| picked(states(jobs@), rows@)[r].kv_pos as i32),
        b.slots@ == Seq::new(rows@.len(), |r: int| slot_fed(picked(states(jobs@), rows@)[r].slot)),
        b.block@ == block_table(picked(states(jobs@), rows@), b.max_pages as int),
{
    let width: usize = max_pages(jobs, rows);
    let ghost ps = picked(states(jobs@), rows@);
    let ghost ds = rows_of(drafts@);
    let mut feed: Vec<i64> = Vec::new();
    let mut seqlens: Vec<i32> = Vec::new();
    let mut slots: Vec<i32> = Vec::new();
    let mut block: Vec<i32> = Vec::new();
    let mut r: usize = 0;
    assert(ps.take(0) =~= seq![]);
    while r < rows.len()
        invariant
            r <= rows@.len(),
            forall|i: int| 0 <= i < rows@.len() ==> (#[trigger] rows@[i]) < jobs@.len(),
            forall|i: int| 0 <= i < jobs@.len() ==> (#[trigger] jobs@[i]).inv(),
            drafts@.len() == rows@.len(),
            ps == picked(states(jobs@), rows@),
            ds == rows_of(drafts@),
            width == widest(ps),
            feed@ == fed_tokens(ps.take(r as int), ds),
            seqlens@ == Seq::new(r as nat, |i: int| ps[i].kv_pos as i32),
            slots@ == Seq::new(r as nat, |i: int| slot_fed(ps[i].slot)),
            block@ == block_table(ps.take(r as int), width as int),
        decreases rows@.len() - r,
    {
        assert(ps.take(r + 1).drop_last() =~= ps.take(r as int));
        assert(ps.take(r + 1).last() == jobs@[rows@[r as int] as int]@);
        let job = &jobs[rows[r]];
        let at: usize = job.kv_pos as usize;
        let ghost feed0 = feed@;
        let len: usize = job.seq.len();
        assert(job.kv_pos < len);
        feed.push(job.seq[at]);
        let mut i: usize = 0;
        while i < drafts[r].len()
            invariant
                r < drafts@.len(),
                i <= drafts@[r as int]@.len(),
                feed@ == feed0 + (seq![job@.seq[job@.kv_pos as int]] + drafts@[r as int]@.take(i as int)),
            decreases drafts@[r as int]@.len() - i,
        {
            feed.push(drafts[r][i]);
            i = i + 1;
            assert(feed@ =~= feed0 + (seq![job@.seq[job@.kv_pos as int]] + drafts@[r as int]@.take(i as int)));
        }
        assert(drafts@[r as int]@.take(i as int) =~= ds[r as int]);
        seqlens.push(job.kv_pos as i32);
        slots.push(
            if job.slot >= 0 {
                job.slot as i32
            } else {
                0
            },
        );
        let ghost block0 = block@;
        let mut p: usize = 0;
        while p < width
            invariant
                p <= width,
                block@ == block0 + padded(job@.block, width as int).take(p as int),
            decreases width - p,
        {
            if p < job.block.len() {
                block.push(job.block[p]);
            } else {
                block.push(0);
            }
            p = p + 1;
            assert(block@ =~= block0 + padded(job@.block, width as int).take(p as int));
        }
        assert(padded(job@.block, width as int).take(p as int) =~= padded(job@.block, width as int));
        r = r + 1;
        assert(seqlens@ =~= Seq::new(r as nat, |i: int| ps[i].kv_pos as i32));
        assert(slots@ =~= Seq::new(r as nat, |i: int| slot_fed(ps[i].slot)));
    }
    assert(ps.take(r as int) =~= ps);
    Batch { feed, seqlens, slots, block, max_pages: width }
}

/// The table has a row of the same width for every job, and page `p` of row `r` is that of
/// the job, or zero behind the job's last.
pub proof fn tables_hold_every_page(jobs: Seq<JobState>, r: int, p: int)
    requires
        0 <= r < jobs.len(),
        0 <= p < widest(jobs),
    ensures
        block_table(jobs, widest(jobs)).len() == jobs.len() * widest(jobs),
        block_table(jobs, widest(jobs))[r * widest(jobs) + p] == if p < jobs[r].block.len() {
            jobs[r].block[p]
        } else {
            0
        },
        jobs[r].block.len() <= widest(jobs),
{
    lemma_widest(jobs, r);
    lemma_table(jobs, widest(jobs), r, p);
}

proof fn lemma_table(jobs: Seq<JobState>, width: int, r: int, p: int)
    requires
        0 <= p < width,
    ensures
        block_table(jobs, width).len() == jobs.len() * width,
        0 <= r < jobs.len() ==> 0 <= r * width + p < jobs.len() * width && block_table(jobs, width)[r * width + p]
            == padded(jobs[r].block, width)[p],
    decreases jobs.len(),
{
    if jobs.len() > 0 {
        let rest = jobs.drop_last();
        lemma_table(rest, width, r, p);
        assert(jobs.len() * width == rest.len() * width + width) by (nonlinear_arith)
            requires
                jobs.len() == rest.len() + 1,
        ;
        if 0 <= r < jobs.len() {
            assert(0 <= r * width) by (nonlinear_arith)
                requires
                    r >= 0,
                    width > 0,
            ;
            if r < rest.len() {
                assert(rest[r] == jobs[r]);
                assert(rest.len() * width <= jobs.len() * width);
            } else {
                assert(r * width == rest.len() * width);
            }
        }
    }
}

/// What is fed for a row is the token at its place, and its draft behind it; rows follow each
/// other in order.
pub proof fn rows_are_fed_their_token_and_their_draft(jobs: Seq<JobState>, drafts: Seq<Seq<i64>>, q: int, r: int)
    requires
        0 <= r < jobs.len() <= drafts.len(),
        forall|i: int| 0 <= i < jobs.len() ==> (#[trigger] drafts[i]).len() == q,
    ensures
        fed_tokens(jobs, drafts).len() == jobs.len() * (q + 1),
        0 <= r * (q + 1) && r * (q + 1) + q < jobs.len() * (q + 1),
        fed_tokens(jobs, drafts)[r * (q + 1)] == jobs[r].seq[jobs[r].kv_pos as int],
        forall|i: int| 0 <= i < q ==> fed_tokens(jobs, drafts)[r * (q + 1) + 1 + i] == #[trigger] drafts[r][i],
    decreases jobs.len(),
{
    let front = jobs.drop_last();
    let n = front.len() as int;
    let w = q + 1;
    let last = seq![jobs.last().seq[jobs.last().kv_pos as int]] + drafts[n];
    assert(drafts[0].len() == q);
    assert(drafts[n].len() == q);
    assert(last.len() == w);
    assert(n * w + w == (n + 1) * w) by (nonlinear_arith);
    if n == 0 {
        assert(fed_tokens(front, drafts) =~= seq![]);
        assert(0 * w == 0) by (nonlinear_arith);
    } else {
        let r0 = if r < n {
            r
        } else {
            0
        };
        rows_are_fed_their_token_and_their_draft(front, drafts, q, r0);
    }
    let all = fed_tokens(jobs, drafts);
    assert(fed_tokens(front, drafts).len() == n * w);
    if r < n {
        assert(front[r] == jobs[r]);
    } else {
        assert(r == n);
        assert forall|i: int| 0 <= i < q implies all[r * w + 1 + i] == #[trigger] drafts[r][i] by {
            assert(all[n * w + (1 + i)] == last[1 + i]);
        }
        assert(n * w >= 0) by (nonlinear_arith)
            requires
                n >= 0,
                w >= 0,
        ;
    }
}

} // verus!
