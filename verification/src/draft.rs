//! A draft model: a small model of the same vocabulary that drafts token after token, with pages
//! of its own.
use vstd::prelude::*;
use crate::config::ArchKind;
use crate::generator::batch::padded;

verus! {

/// Why a model cannot draft for another.
#[derive(Clone, Copy, Debug, PartialEq, Eq, Structural)]
pub enum DraftRefusal {
    /// It has a recurrent state.
    Recurrent,
    /// Its vocabulary is another.
    Vocabulary { draft: i64, target: i64 },
}

/// Whether a model can draft for another.
pub fn check_draft(arch: ArchKind, draft_vocab: i64, target_vocab: i64) -> (r: Result<(), DraftRefusal>)
    ensures
        r == if arch == ArchKind::Qwen35 {
            Err::<(), DraftRefusal>(DraftRefusal::Recurrent)
        } else if draft_vocab != target_vocab {
            Err(DraftRefusal::Vocabulary { draft: draft_vocab, target: target_vocab })
        } else {
            Ok(())
        },
{
    if arch == ArchKind::Qwen35 {
        return Err(DraftRefusal::Recurrent);
    }
    if draft_vocab != target_vocab {
        return Err(DraftRefusal::Vocabulary { draft: draft_vocab, target: target_vocab });
    }
    Ok(())
}

/// How many tokens of a prompt the draft model ingests: all but the last, which is fed when
/// drafting starts.
pub fn prime_len(prompt_len: usize) -> (r: usize)
    ensures
        r == if prompt_len >= 1 {
            prompt_len - 1
        } else {
            0
        },
{
    if prompt_len >= 1 {
        prompt_len - 1
    } else {
        0
    }
}

/// The most pages of one row.
pub open spec fn most_pages(blocks: Seq<Vec<i32>>) -> int
    decreases blocks.len(),
{
    if blocks.len() == 0 {
        0
    } else {
        let n = most_pages(blocks.drop_last());
        if blocks.last()@.len() > n {
            blocks.last()@.len() as int
        } else {
            n
        }
    }
}

/// The pages of some rows in one table, row after row.
pub open spec fn page_rows(blocks: Seq<Vec<i32>>, width: int) -> Seq<i32>
    decreases blocks.len(),
{
    if blocks.len() == 0 {
        seq![]
    } else {
        page_rows(blocks.drop_last(), width) + padded(blocks.last()@, width)
    }
}

/// The width of the table of some rows: that of the longest, or one where there is no row.
pub open spec fn table_width(blocks: Seq<Vec<i32>>) -> int {
    if blocks.len() == 0 {
        1
    } else {
        most_pages(blocks)
    }
}

/// The pages of some rows in one table, filled up with zeros, and its width.
pub fn pack_blocks(blocks: &Vec<Vec<i32>>) -> (r: (Vec<i32>, usize))
    ensures
        r.1 == table_width(blocks@),
        r.0@ == page_rows(blocks@, r.1 as int),
{
    let mut width: usize = 0;
    let mut b: usize = 0;
    assert(blocks@.take(0) =~= seq![]);
    while b < blocks.len()
        invariant
            b <= blocks.len(),
            width == most_pages(blocks@.take(b as int)),
        decreases blocks.len() - b,
    {
        if blocks[b].len() > width {
            width = blocks[b].len();
        }
        b = b + 1;
        proof {
            let t = blocks@.take(b as int);
            assert(t.drop_last() =~= blocks@.take(b - 1));
            assert(t.last() == blocks@[b - 1]);
        }
    }
    assert(blocks@.take(b as int) =~= blocks@);
    if blocks.len() == 0 {
        width = 1;
    }
    let mut table: Vec<i32> = Vec::new();
    b = 0;
    while b < blocks.len()
        invariant
            b <= blocks.len(),
            table@ == page_rows(blocks@.take(b as int), width as int),
        decreases blocks.len() - b,
    {
        let ghost before = table@;
        let row: &Vec<i32> = &blocks[b];
        let mut p: usize = 0;
        while p < width
            invariant
                p <= width,
                table@ == before + padded(row@, width as int).take(p as int),
            decreases width - p,
        {
            if p < row.len() {
                table.push(row[p]);
            } else {
                table.push(0);
            }
            p = p + 1;
            assert(table@ =~= before + padded(row@, width as int).take(p as int));
        }
        b = b + 1;
        proof {
            assert(padded(row@, width as int).take(p as int) =~= padded(row@, width as int));
            let t = blocks@.take(b as int);
            assert(t.drop_last() =~= blocks@.take(b - 1));
            assert(t.last() == blocks@[b - 1]);
        }
    }
    assert(blocks@.take(b as int) =~= blocks@);
    (table, width)
}

/// The places that the rows are fed at in step `i` of drafting.
pub fn step_places(pos: &Vec<i64>, i: i64) -> (r: Vec<i32>)
    requires
        0 <= i,
        forall|j: int| 0 <= j < pos.len() ==> 0 <= #[trigger] pos[j] && pos[j] + i <= i32::MAX,
    ensures
        r@ == Seq::new(pos@.len(), |j: int| (pos@[j] + i) as i32),
{
    let mut r: Vec<i32> = Vec::new();
    let mut j: usize = 0;
    while j < pos.len()
        invariant
            0 <= i,
            forall|k: int| 0 <= k < pos.len() ==> 0 <= #[trigger] pos[k] && pos[k] + i <= i32::MAX,
            j <= pos.len(),
            r@ == Seq::new(j as nat, |k: int| (pos@[k] + i) as i32),
        decreases pos.len() - j,
    {
        assert(0 <= pos[j as int] && pos[j as int] + i <= i32::MAX);
        r.push((pos[j] + i) as i32);
        j = j + 1;
        assert(r@ =~= Seq::new(j as nat, |k: int| (pos@[k] + i) as i32));
    }
    r
}

/// The table of some rows is as wide as the longest of them, and holds in each row its pages in
/// order, and zeros behind them.
pub proof fn tables_hold_the_pages_of_every_row(blocks: Seq<Vec<i32>>, r: int, p: int)
    requires
        0 <= r < blocks.len(),
        0 <= p < table_width(blocks),
    ensures
        forall|i: int| 0 <= i < blocks.len() ==> (#[trigger] blocks[i])@.len() <= table_width(blocks),
        exists|i: int| 0 <= i < blocks.len() && (#[trigger] blocks[i])@.len() == table_width(blocks),
        page_rows(blocks, table_width(blocks)).len() == blocks.len() * table_width(blocks),
        page_rows(blocks, table_width(blocks))[r * table_width(blocks) + p] == if p < blocks[r]@.len() {
            blocks[r]@[p]
        } else {
            0
        },
{
    lemma_most(blocks);
    lemma_page_rows(blocks, table_width(blocks), r, p);
}

proof fn lemma_most(blocks: Seq<Vec<i32>>)
    ensures
        forall|i: int| 0 <= i < blocks.len() ==> (#[trigger] blocks[i])@.len() <= most_pages(blocks),
        most_pages(blocks) == 0 || exists|i: int| 0 <= i < blocks.len() && (#[trigger] blocks[i])@.len() == most_pages(blocks),
        most_pages(blocks) >= 0,
    decreases blocks.len(),
{
    if blocks.len() > 0 {
        let front = blocks.drop_last();
        lemma_most(front);
        assert forall|i: int| 0 <= i < blocks.len() implies (#[trigger] blocks[i])@.len() <= most_pages(blocks) by {
            if i < front.len() {
                assert(front[i] == blocks[i]);
            }
        }
        if blocks.last()@.len() > most_pages(front) {
            assert(blocks[blocks.len() - 1]@.len() == most_pages(blocks));
        } else if most_pages(front) > 0 {
            let i = choose|i: int| 0 <= i < front.len() && (#[trigger] front[i])@.len() == most_pages(front);
            assert(blocks[i]@.len() == most_pages(blocks));
        }
    }
}

proof fn lemma_page_rows(blocks: Seq<Vec<i32>>, width: int, r: int, p: int)
    requires
        0 <= p < width,
    ensures
        page_rows(blocks, width).len() == blocks.len() * width,
        0 <= r < blocks.len() ==> 0 <= r * width + p < blocks.len() * width && page_rows(blocks, width)[r * width + p]
            == padded(blocks[r]@, width)[p],
    decreases blocks.len(),
{
    if blocks.len() > 0 {
        let front = blocks.drop_last();
        let n = front.len() as int;
        lemma_page_rows(front, width, r, p);
        assert(n * width + width == (n + 1) * width) by (nonlinear_arith);
        assert(n * width >= 0) by (nonlinear_arith)
            requires
                n >= 0,
                width > 0,
        ;
        if 0 <= r < n {
            assert(front[r] == blocks[r]);
        } else if r == n {
            assert(page_rows(blocks, width)[n * width + p] == padded(blocks.last()@, width)[p]);
        }
    } else {
        assert(0 * width == 0) by (nonlinear_arith);
    }
}

} // verus!
