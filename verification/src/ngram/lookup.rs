//! Rows of the table: each is fetched once, however many heads and positions pick it.
use vstd::prelude::*;
use crate::ngram::hashing::{heads_of, row_ids};
use crate::ngram::table::{NGramEmbedding, Store, TablePlan};
use crate::ngram::trellis::{byte_sum, mul1_sum, unpack_row, unpacks};
use crate::sorted::{insert, lower, rising};

verus! {

/// All rows, shard after shard.
pub open spec fn all_rows(shards: Seq<Vec<Vec<u16>>>) -> Seq<Seq<u16>>
    decreases shards.len(),
{
    if shards.len() == 0 {
        seq![]
    } else {
        all_rows(shards.drop_last()) + Seq::new(shards.last()@.len(), |i: int| shards.last()@[i]@)
    }
}

/// Whether all shards have so many rows, but for the last, which may have fewer.
pub open spec fn even(shards: Seq<Vec<Vec<u16>>>, per: int) -> bool {
    &&& forall|i: int| 0 <= i < shards.len() - 1 ==> (#[trigger] shards[i]).len() == per
    &&& shards.len() > 0 ==> shards.last().len() <= per
}

/// The shards of a table.
pub open spec fn shards_of(s: Store) -> Seq<Vec<Vec<u16>>> {
    match s {
        Store::Fp16 { shards } => shards@,
        Store::Trellis { shards, .. } => shards@,
    }
}

/// No offset is above the next.
pub open spec fn ascending(v: Seq<i64>) -> bool {
    forall|i: int, j: int| 0 <= i <= j < v.len() ==> #[trigger] v[i] <= #[trigger] v[j]
}

/// How many of these numbers are not above `x`.
pub open spec fn not_above(v: Seq<i64>, x: i64) -> nat
    decreases v.len(),
{
    if v.len() == 0 {
        0
    } else {
        not_above(v.drop_last(), x) + if v.last() <= x {
            1nat
        } else {
            0nat
        }
    }
}

/// The head that a row belongs to: the last one that does not start behind it.
pub open spec fn owner(offsets: Seq<i64>, row: i64) -> int {
    let n = not_above(offsets, row);
    if n == 0 {
        0
    } else {
        n - 1
    }
}

/// A row as it is fetched.
pub enum Row {
    /// The values themselves.
    Plain { words: Vec<u16> },
    /// What the states of a packed row decode to, its scale, and the head it belongs to, whose
    /// bias is added.
    Packed { sums: Vec<u32>, scale: u16, head: usize },
}

impl NGramEmbedding {
    /// What every table keeps.
    pub open spec fn stored(&self) -> bool {
        &&& even(shards_of(self.store), self.rows_per_shard as int)
        &&& self.rows_per_shard >= 0
        &&& self.num_rows == all_rows(shards_of(self.store)).len()
        &&& match self.store {
            Store::Fp16 { .. } => true,
            Store::Trellis { shards, k } => {
                &&& k >= 1
                &&& forall|i: int|
                    0 <= i < all_rows(shards@).len() ==> (#[trigger] all_rows(shards@)[i]).len() == 1 + 10 * k
                &&& ascending(self.head_offsets@)
                &&& self.head_offsets.len() >= 1
            },
        }
    }

    /// Whether this is what fetching a row gives.
    pub open spec fn fetched(&self, id: i64, row: Row) -> bool {
        let words = all_rows(shards_of(self.store))[id as int];
        match self.store {
            Store::Fp16 { .. } => row matches Row::Plain { words: w } && w@ == words,
            Store::Trellis { k, .. } => {
                &&& row matches Row::Packed { sums, scale, head }
                &&& scale == words[0]
                &&& head == owner(self.head_offsets@, id)
                &&& exists|states: Seq<u16>| #[trigger]
                    unpacks(words, k as int, states) && sums@ == Seq::new(160, |i: int| byte_sum(states[i]) as u32)
            },
        }
    }

    /// A table of parts that were read as planned.
    pub fn load(
        plan: &TablePlan,
        store: Store,
        head_offsets: Vec<i64>,
        head_vocab_sizes: Vec<i64>,
        layer_multipliers: Vec<i64>,
        ngram_size: i64,
        heads_per_ngram: i64,
        ple_embed_dim: i64,
        eos_token_id: i64,
    ) -> (r: NGramEmbedding)
        ensures
            r == (NGramEmbedding {
                store,
                head_offsets,
                head_vocab_sizes,
                layer_multipliers,
                rows_per_shard: plan.rows_per_shard,
                num_rows: plan.num_rows,
                ngram_size,
                heads_per_ngram,
                num_heads: plan.num_heads,
                ple_embed_dim,
                eos_token_id,
            }),
    {
        NGramEmbedding {
            store,
            head_offsets,
            head_vocab_sizes,
            layer_multipliers,
            rows_per_shard: plan.rows_per_shard,
            num_rows: plan.num_rows,
            ngram_size,
            heads_per_ngram,
            num_heads: plan.num_heads,
            ple_embed_dim,
            eos_token_id,
        }
    }

    /// How many rows all shards have.
    pub fn num_rows(&self) -> (r: i64)
        requires
            self.stored(),
        ensures
            r == all_rows(shards_of(self.store)).len(),
    {
        self.num_rows
    }

    /// The words of a row.
    fn row_words(&self, id: i64) -> (r: Vec<u16>)
        requires
            self.stored(),
            0 <= id < self.num_rows,
        ensures
            r@ == all_rows(shards_of(self.store))[id as int],
    {
        let shards = match &self.store {
            Store::Fp16 { shards } => shards,
            Store::Trellis { shards, .. } => shards,
        };
        proof {
            lemma_all_rows(shards@, self.rows_per_shard as int);
            lemma_routing(shards@, self.rows_per_shard as int, id as int);
        }
        if shards.len() == 1 {
            assert(all_rows(shards@.drop_last()) =~= seq![]);
            return copy_words(&shards[0][id as usize]);
        }
        let per: u64 = self.rows_per_shard as u64;
        let s: u64 = id as u64 / per;
        let local: u64 = id as u64 % per;
        copy_words(&shards[s as usize][local as usize])
    }

    /// The words of some rows.
    pub fn fetch_packed(&self, uids: &Vec<i64>) -> (r: Vec<Vec<u16>>)
        requires
            self.stored(),
            forall|i: int| 0 <= i < uids.len() ==> 0 <= #[trigger] uids[i] < self.num_rows,
        ensures
            r.len() == uids.len(),
            forall|i: int| 0 <= i < r.len() ==> (#[trigger] r@[i])@ == all_rows(shards_of(self.store))[uids[i] as int],
    {
        let mut r: Vec<Vec<u16>> = Vec::new();
        let mut i: usize = 0;
        while i < uids.len()
            invariant
                self.stored(),
                forall|j: int| 0 <= j < uids.len() ==> 0 <= #[trigger] uids[j] < self.num_rows,
                i <= uids.len(),
                r.len() == i,
                forall|j: int| 0 <= j < i ==> (#[trigger] r@[j])@ == all_rows(shards_of(self.store))[uids[j] as int],
            decreases uids.len() - i,
        {
            assert(0 <= uids[i as int] < self.num_rows);
            let w = self.row_words(uids[i]);
            r.push(w);
            i = i + 1;
        }
        r
    }

    /// Some rows, decoded as far as whole numbers go.
    pub fn fetch_rows(&self, uids: &Vec<i64>) -> (r: Vec<Row>)
        requires
            self.stored(),
            forall|i: int| 0 <= i < uids.len() ==> 0 <= #[trigger] uids[i] < self.num_rows,
        ensures
            r.len() == uids.len(),
            forall|i: int| 0 <= i < r.len() ==> self.fetched(uids[i], #[trigger] r@[i]),
    {
        let mut r: Vec<Row> = Vec::new();
        let mut i: usize = 0;
        while i < uids.len()
            invariant
                self.stored(),
                forall|j: int| 0 <= j < uids.len() ==> 0 <= #[trigger] uids[j] < self.num_rows,
                i <= uids.len(),
                r.len() == i,
                forall|j: int| 0 <= j < i ==> self.fetched(uids[j], #[trigger] r@[j]),
            decreases uids.len() - i,
        {
            assert(0 <= uids[i as int] < self.num_rows);
            let words = self.row_words(uids[i]);
            let row = match &self.store {
                Store::Fp16 { .. } => Row::Plain { words },
                Store::Trellis { shards, k } => {
                    let head = head_of(&self.head_offsets, uids[i]);
                    assert(all_rows(shards@)[uids[i as int] as int].len() == 1 + 10 * *k);
                    let states = unpack_row(&words, *k);
                    let sums = sums_of(&states);
                    assert(sums@ == Seq::new(160, |j: int| byte_sum(states@[j]) as u32));
                    assert(unpacks(words@, *k as int, states@));
                    Row::Packed { sums, scale: words[0], head }
                },
            };
            r.push(row);
            i = i + 1;
        }
        r
    }
}

fn sums_of(states: &Vec<u16>) -> (r: Vec<u32>)
    ensures
        r@ == Seq::new(states@.len(), |i: int| byte_sum(states@[i]) as u32),
{
    let mut r: Vec<u32> = Vec::new();
    let mut i: usize = 0;
    while i < states.len()
        invariant
            i <= states.len(),
            r@ == Seq::new(i as nat, |j: int| byte_sum(states@[j]) as u32),
        decreases states.len() - i,
    {
        r.push(mul1_sum(states[i]));
        i = i + 1;
        assert(r@ =~= Seq::new(i as nat, |j: int| byte_sum(states@[j]) as u32));
    }
    r
}

fn copy_words(w: &Vec<u16>) -> (r: Vec<u16>)
    ensures
        r@ == w@,
{
    let mut r: Vec<u16> = Vec::new();
    let mut i: usize = 0;
    while i < w.len()
        invariant
            i <= w.len(),
            r@ == w@.take(i as int),
        decreases w.len() - i,
    {
        r.push(w[i]);
        i = i + 1;
        assert(w@.take(i as int) =~= w@.take(i - 1).push(w@[i - 1]));
    }
    assert(w@.take(i as int) =~= w@);
    r
}

proof fn lemma_not_above(v: Seq<i64>, x: i64, n: int)
    requires
        ascending(v),
        0 <= n <= v.len(),
        n > 0 ==> v[n - 1] <= x,
        n < v.len() ==> v[n] > x,
    ensures
        not_above(v, x) == n,
    decreases v.len(),
{
    if v.len() > 0 {
        let t = v.drop_last();
        if n < v.len() {
            assert(v[n] <= v[v.len() - 1]);
            lemma_not_above(t, x, n);
        } else {
            if n - 1 > 0 {
                assert(v[n - 2] <= v[n - 1]);
            }
            lemma_not_above(t, x, n - 1);
        }
    }
}

/// The head that a row belongs to.
pub fn head_of(offsets: &Vec<i64>, row: i64) -> (r: usize)
    requires
        ascending(offsets@),
        offsets.len() >= 1,
    ensures
        r == owner(offsets@, row),
        r < offsets.len(),
{
    let mut lo: usize = 0;
    let mut hi: usize = offsets.len();
    while lo < hi
        invariant
            ascending(offsets@),
            lo <= hi <= offsets.len(),
            lo > 0 ==> offsets@[lo - 1] <= row,
            hi < offsets.len() ==> offsets@[hi as int] > row,
        decreases hi - lo,
    {
        let mid: usize = lo + (hi - lo) / 2;
        if offsets[mid] <= row {
            lo = mid + 1;
        } else {
            hi = mid;
        }
    }
    proof {
        lemma_not_above(offsets@, row, lo as int);
    }
    if lo == 0 {
        0
    } else {
        lo - 1
    }
}

proof fn lemma_all_rows(shards: Seq<Vec<Vec<u16>>>, per: int)
    requires
        even(shards, per),
        per >= 0,
    ensures
        shards.len() > 0 ==> all_rows(shards).len() == (shards.len() - 1) * per + shards.last().len(),
        shards.len() == 0 ==> all_rows(shards).len() == 0,
    decreases shards.len(),
{
    if shards.len() > 1 {
        let t = shards.drop_last();
        assert forall|i: int| 0 <= i < t.len() - 1 implies (#[trigger] t[i]).len() == per by {
            assert(t[i] == shards[i]);
        }
        assert(t.last() == shards[shards.len() - 2]);
        assert(shards[shards.len() - 2].len() == per);
        lemma_all_rows(t, per);
        let n = shards.len() - 1;
        assert((n - 1) * per + per == n * per) by (nonlinear_arith);
    } else if shards.len() == 1 {
        assert(all_rows(shards.drop_last()) =~= seq![]);
        assert(0 * per == 0);
    }
}

/// The row is in the shard that its number says, where there are even shards.
proof fn lemma_routing(shards: Seq<Vec<Vec<u16>>>, per: int, id: int)
    requires
        even(shards, per),
        per >= 0,
        0 <= id < all_rows(shards).len(),
    ensures
        per > 0,
        shards.len() >= 1,
        0 <= id / per < shards.len(),
        id % per < shards[id / per].len(),
        all_rows(shards)[id] == shards[id / per]@[id % per]@,
    decreases shards.len(),
{
    lemma_all_rows(shards, per);
    let n = shards.len() - 1;
    let t = shards.drop_last();
    if shards.len() == 1 {
        assert(t =~= seq![]);
        assert(0 * per == 0);
        vstd::arithmetic::div_mod::lemma_fundamental_div_mod_converse(id, per, 0, id);
    } else {
        assert forall|i: int| 0 <= i < t.len() - 1 implies (#[trigger] t[i]).len() == per by {
            assert(t[i] == shards[i]);
        }
        assert(t.last() == shards[n - 1]);
        assert(shards[n - 1].len() == per);
        lemma_all_rows(t, per);
        assert((n - 1) * per + per == n * per) by (nonlinear_arith);
        if id < n * per {
            lemma_routing(t, per, id);
            assert(t[id / per] == shards[id / per]);
        } else {
            let l = id - n * per;
            vstd::arithmetic::div_mod::lemma_fundamental_div_mod_converse(id, per, n, l);
        }
    }
}

/// Whether these are all of these numbers, each once, from the lowest up.
pub open spec fn distinct_of(uids: Seq<i64>, ids: Seq<i64>) -> bool {
    &&& rising(uids)
    &&& forall|i: int| 0 <= i < ids.len() ==> uids.contains(#[trigger] ids[i])
    &&& forall|i: int| 0 <= i < uids.len() ==> ids.contains(#[trigger] uids[i])
}

/// These numbers, each once, from the lowest up.
pub fn distinct(ids: &Vec<i64>) -> (r: Vec<i64>)
    ensures
        distinct_of(r@, ids@),
{
    let mut r: Vec<i64> = Vec::new();
    let mut i: usize = 0;
    while i < ids.len()
        invariant
            i <= ids.len(),
            rising(r@),
            forall|j: int| 0 <= j < i ==> r@.contains(#[trigger] ids@[j]),
            forall|x: i64| #[trigger] r@.contains(x) ==> ids@.contains(x),
        decreases ids.len() - i,
    {
        insert(&mut r, ids[i]);
        assert(ids@.contains(ids@[i as int]));
        i = i + 1;
    }
    assert forall|j: int| 0 <= j < r@.len() implies ids@.contains(#[trigger] r@[j]) by {
        assert(r@.contains(r@[j]));
    }
    r
}

/// The rows of some positions: each row once, and which one each head of each position picks.
pub struct Embedded {
    pub rows: Vec<Row>,
    /// For each history, each of its positions and each head, in this order.
    pub picks: Vec<Vec<Vec<usize>>>,
}

/// All numbers of a nested list, in order.
pub open spec fn flat(ids: Seq<Vec<Vec<i64>>>) -> Seq<i64>
    decreases ids.len(),
{
    if ids.len() == 0 {
        seq![]
    } else {
        flat(ids.drop_last()) + flat_one(ids.last()@)
    }
}

/// All numbers of a nested list, in order.
pub open spec fn flat_one(ids: Seq<Vec<i64>>) -> Seq<i64>
    decreases ids.len(),
{
    if ids.len() == 0 {
        seq![]
    } else {
        flat_one(ids.drop_last()) + ids.last()@
    }
}

proof fn lemma_flat_one(ids: Seq<Vec<i64>>, t: int, h: int)
    requires
        0 <= t < ids.len(),
        0 <= h < ids[t].len(),
    ensures
        flat_one(ids).contains(ids[t]@[h]),
    decreases ids.len(),
{
    let rest = ids.drop_last();
    let all = flat_one(ids);
    if t == ids.len() - 1 {
        assert(all[flat_one(rest).len() + h] == ids[t]@[h]);
    } else {
        lemma_flat_one(rest, t, h);
        let k = choose|k: int| 0 <= k < flat_one(rest).len() && flat_one(rest)[k] == rest[t]@[h];
        assert(all[k] == ids[t]@[h]);
    }
}

proof fn lemma_flat(ids: Seq<Vec<Vec<i64>>>, b: int, t: int, h: int)
    requires
        0 <= b < ids.len(),
        0 <= t < ids[b].len(),
        0 <= h < ids[b]@[t].len(),
    ensures
        flat(ids).contains(ids[b]@[t]@[h]),
    decreases ids.len(),
{
    let rest = ids.drop_last();
    let all = flat(ids);
    let x = ids[b]@[t]@[h];
    if b == ids.len() - 1 {
        lemma_flat_one(ids[b]@, t, h);
        let one = flat_one(ids[b]@);
        let k = choose|k: int| 0 <= k < one.len() && one[k] == x;
        assert(all[flat(rest).len() + k] == x);
    } else {
        lemma_flat(rest, b, t, h);
        let k = choose|k: int| 0 <= k < flat(rest).len() && flat(rest)[k] == x;
        assert(all[k] == x);
    }
}

/// Whether all numbers of a nested list are rows of a table of so many.
pub open spec fn rows_in_table(ids: Seq<Vec<Vec<i64>>>, num_rows: int) -> bool {
    forall|b: int, t: int, h: int|
        0 <= b < ids.len() && 0 <= t < ids[b].len() && 0 <= h < ids[b]@[t].len() ==> 0 <= #[trigger] ids[b]@[t]@[h]
            < num_rows
}

proof fn lemma_flat_one_in(ids: Seq<Vec<i64>>, n: int)
    requires
        forall|t: int, h: int|
            0 <= t < ids.len() && 0 <= h < ids[t].len() ==> 0 <= #[trigger] ids[t]@[h] < n,
    ensures
        forall|k: int| 0 <= k < flat_one(ids).len() ==> 0 <= #[trigger] flat_one(ids)[k] < n,
    decreases ids.len(),
{
    if ids.len() > 0 {
        let rest = ids.drop_last();
        assert forall|t: int, h: int| 0 <= t < rest.len() && 0 <= h < rest[t].len() implies 0 <= #[trigger] rest[t]@[h]
            < n by {
            assert(ids[t]@[h] == rest[t]@[h]);
        }
        lemma_flat_one_in(rest, n);
        assert forall|k: int| 0 <= k < flat_one(ids).len() implies 0 <= #[trigger] flat_one(ids)[k] < n by {
            let m = flat_one(rest).len();
            if k < m {
                assert(flat_one(ids)[k] == flat_one(rest)[k]);
            } else {
                assert(flat_one(ids)[k] == ids[ids.len() - 1]@[k - m]);
            }
        }
    }
}

proof fn lemma_flat_in(ids: Seq<Vec<Vec<i64>>>, n: int)
    requires
        rows_in_table(ids, n),
    ensures
        forall|k: int| 0 <= k < flat(ids).len() ==> 0 <= #[trigger] flat(ids)[k] < n,
    decreases ids.len(),
{
    if ids.len() > 0 {
        let rest = ids.drop_last();
        assert forall|b: int, t: int, h: int|
            0 <= b < rest.len() && 0 <= t < rest[b].len() && 0 <= h < rest[b]@[t].len() implies 0 <= #[trigger] rest[b]@[t]@[h]
            < n by {
            assert(ids[b]@[t]@[h] == rest[b]@[t]@[h]);
        }
        lemma_flat_in(rest, n);
        let last = ids[ids.len() - 1]@;
        assert forall|t: int, h: int| 0 <= t < last.len() && 0 <= h < last[t].len() implies 0 <= #[trigger] last[t]@[h]
            < n by {
            assert(ids[ids.len() - 1]@[t]@[h] == last[t]@[h]);
        }
        lemma_flat_one_in(last, n);
        assert forall|k: int| 0 <= k < flat(ids).len() implies 0 <= #[trigger] flat(ids)[k] < n by {
            let m = flat(rest).len();
            if k < m {
                assert(flat(ids)[k] == flat(rest)[k]);
            } else {
                assert(flat(ids)[k] == flat_one(last)[k - m]);
            }
        }
    }
}

/// All numbers of a nested list, in order.
fn flatten(ids: &Vec<Vec<Vec<i64>>>) -> (r: Vec<i64>)
    ensures
        r@ == flat(ids@),
{
    let mut r: Vec<i64> = Vec::new();
    let mut b: usize = 0;
    while b < ids.len()
        invariant
            b <= ids.len(),
            r@ == flat(ids@.take(b as int)),
        decreases ids.len() - b,
    {
        let one: &Vec<Vec<i64>> = &ids[b];
        let ghost head = r@;
        let mut t: usize = 0;
        assert(one@.take(0) =~= seq![]);
        while t < one.len()
            invariant
                t <= one.len(),
                r@ == head + flat_one(one@.take(t as int)),
            decreases one.len() - t,
        {
            let row: &Vec<i64> = &one[t];
            let ghost part = r@;
            let mut h: usize = 0;
            while h < row.len()
                invariant
                    h <= row.len(),
                    r@ == part + row@.take(h as int),
                decreases row.len() - h,
            {
                r.push(row[h]);
                h = h + 1;
                assert(row@.take(h as int) =~= row@.take(h - 1).push(row@[h - 1]));
            }
            t = t + 1;
            proof {
                assert(row@.take(h as int) =~= row@);
                let x = one@.take(t as int);
                assert(x.drop_last() =~= one@.take(t - 1));
                assert(x.last() == one@[t - 1]);
                assert(r@ =~= head + flat_one(x));
            }
        }
        b = b + 1;
        proof {
            assert(one@.take(t as int) =~= one@);
            let x = ids@.take(b as int);
            assert(x.drop_last() =~= ids@.take(b - 1));
            assert(x.last() == ids@[b - 1]);
        }
    }
    assert(ids@.take(b as int) =~= ids@);
    r
}

/// Whether these are the places of these numbers.
pub open spec fn placed(uids: Seq<i64>, ids: Seq<i64>, picks: Seq<usize>) -> bool {
    &&& picks.len() == ids.len()
    &&& forall|h: int| 0 <= h < ids.len() ==> #[trigger] picks[h] < uids.len() && uids[picks[h] as int] == ids[h]
}

fn places(uids: &Vec<i64>, ids: &Vec<i64>) -> (r: Vec<usize>)
    requires
        rising(uids@),
        forall|h: int| 0 <= h < ids.len() ==> uids@.contains(#[trigger] ids@[h]),
    ensures
        placed(uids@, ids@, r@),
{
    let mut r: Vec<usize> = Vec::new();
    let mut h: usize = 0;
    while h < ids.len()
        invariant
            rising(uids@),
            forall|j: int| 0 <= j < ids.len() ==> uids@.contains(#[trigger] ids@[j]),
            h <= ids.len(),
            r.len() == h,
            forall|j: int| 0 <= j < h ==> #[trigger] r@[j] < uids.len() && uids@[r@[j] as int] == ids@[j],
        decreases ids.len() - h,
    {
        let at = lower(uids, ids[h]);
        proof {
            assert(uids@.contains(ids@[h as int]));
            let k = choose|k: int| 0 <= k < uids@.len() && uids@[k] == ids@[h as int];
            if k < at {
                assert(uids@[k] < ids@[h as int]);
            }
            if at < k {
                assert(uids@[at as int] < uids@[k]);
            }
        }
        r.push(at);
        h = h + 1;
    }
    r
}

impl NGramEmbedding {
    /// Whether these are the rows that these numbers pick.
    pub open spec fn embeds(&self, ids: Seq<Vec<Vec<i64>>>, e: Embedded) -> bool {
        exists|uids: Seq<i64>| #[trigger] self.embeds_by(ids, e, uids)
    }

    /// Whether these are the rows that these numbers pick, when these are the distinct ones of
    /// them.
    pub open spec fn embeds_by(&self, ids: Seq<Vec<Vec<i64>>>, e: Embedded, uids: Seq<i64>) -> bool {
        &&& distinct_of(uids, flat(ids))
        &&& e.rows.len() == uids.len()
        &&& forall|i: int| 0 <= i < uids.len() ==> self.fetched(uids[i], #[trigger] e.rows@[i])
        &&& e.picks.len() == ids.len()
        &&& forall|b: int| 0 <= b < ids.len() ==> (#[trigger] e.picks@[b]).len() == ids[b].len()
        &&& forall|b: int, t: int|
            0 <= b < ids.len() && 0 <= t < ids[b].len() ==> placed(
                uids,
                ids[b]@[t]@,
                (#[trigger] e.picks@[b]@[t])@,
            )
    }

    /// The rows that all heads of all positions pick. A row is decoded once, however many pick
    /// it.
    pub fn embed_ids(&self, ngram_ids: &Vec<Vec<Vec<i64>>>) -> (r: Embedded)
        requires
            self.stored(),
            rows_in_table(ngram_ids@, self.num_rows as int),
        ensures
            self.embeds(ngram_ids@, r),
    {
        let all = flatten(ngram_ids);
        let uids = distinct(&all);
        proof {
            lemma_flat_in(ngram_ids@, self.num_rows as int);
            assert forall|i: int| 0 <= i < uids.len() implies 0 <= #[trigger] uids[i] < self.num_rows by {
                assert(all@.contains(uids@[i]));
            }
        }
        let rows = self.fetch_rows(&uids);
        let mut picks: Vec<Vec<Vec<usize>>> = Vec::new();
        let mut b: usize = 0;
        while b < ngram_ids.len()
            invariant
                all@ == flat(ngram_ids@),
                distinct_of(uids@, all@),
                b <= ngram_ids.len(),
                picks.len() == b,
                forall|x: int| 0 <= x < b ==> (#[trigger] picks@[x]).len() == ngram_ids@[x].len(),
                forall|x: int, t: int|
                    0 <= x < b && 0 <= t < ngram_ids@[x].len() ==> placed(
                        uids@,
                        ngram_ids@[x]@[t]@,
                        (#[trigger] picks@[x]@[t])@,
                    ),
            decreases ngram_ids.len() - b,
        {
            let one: &Vec<Vec<i64>> = &ngram_ids[b];
            let mut of: Vec<Vec<usize>> = Vec::new();
            let mut t: usize = 0;
            while t < one.len()
                invariant
                    all@ == flat(ngram_ids@),
                    distinct_of(uids@, all@),
                    b < ngram_ids.len(),
                    *one == ngram_ids@[b as int],
                    t <= one.len(),
                    of.len() == t,
                    forall|x: int| 0 <= x < t ==> placed(uids@, one@[x]@, (#[trigger] of@[x])@),
                decreases one.len() - t,
            {
                proof {
                    assert forall|h: int| 0 <= h < one@[t as int].len() implies uids@.contains(
                        #[trigger] one@[t as int]@[h],
                    ) by {
                        lemma_flat(ngram_ids@, b as int, t as int, h);
                        let k = choose|k: int| 0 <= k < all@.len() && all@[k] == one@[t as int]@[h];
                        assert(uids@.contains(all@[k]));
                    }
                }
                let p = places(&uids, &one[t]);
                of.push(p);
                t = t + 1;
            }
            picks.push(of);
            b = b + 1;
        }
        let r = Embedded { rows, picks };
        assert(self.embeds_by(ngram_ids@, r, uids@));
        r
    }

    /// The rows of the last positions of some histories: of all but the context that hashing
    /// needs.
    pub fn forward(&self, x: &Vec<Vec<i64>>) -> (r: Embedded)
        requires
            self.ready(),
            self.stored(),
            forall|b: int|
                0 <= b < x.len() ==> self.ngram_size - 1 <= (#[trigger] x[b]).len() && x[b].len() == x[0].len(),
            x.len() > 0,
            x[0].len() <= i64::MAX,
            forall|b: int, p: int, h: int|
                0 <= b < x.len() && self.ngram_size - 1 <= p < x[b].len() && 0 <= h < heads_of(*self) ==> 0
                    <= #[trigger] row_ids(*self, x[b]@, p)[h] < self.num_rows,
        ensures
            exists|ids: Seq<Vec<Vec<i64>>>| #[trigger] self.embeds(ids, r) && hashed_ids(*self, x@, ids),
    {
        let out_len: i64 = x[0].len() as i64 - self.context_len();
        let ids = self.compute_ngram_ids(x, out_len);
        proof {
            assert forall|b: int, t: int, h: int|
                0 <= b < ids.len() && 0 <= t < ids@[b].len() && 0 <= h < ids@[b]@[t].len() implies 0
                <= #[trigger] ids@[b]@[t]@[h] < self.num_rows by {
                let p = x[b].len() - out_len + t;
                assert(ids@[b]@[t]@ == row_ids(*self, x[b]@, p));
                assert(0 <= row_ids(*self, x[b]@, p)[h] < self.num_rows);
            }
        }
        let r = self.embed_ids(&ids);
        assert(hashed_ids(*self, x@, ids@));
        r
    }
}

/// Whether these are the rows of the last positions of some histories.
pub open spec fn hashed_ids(c: NGramEmbedding, x: Seq<Vec<i64>>, ids: Seq<Vec<Vec<i64>>>) -> bool {
    &&& ids.len() == x.len()
    &&& forall|b: int| 0 <= b < x.len() ==> (#[trigger] ids[b]).len() == x[b].len() - c.ngram_size + 1
    &&& forall|b: int, t: int|
        0 <= b < x.len() && 0 <= t < ids[b].len() ==> (#[trigger] ids[b]@[t])@ == row_ids(
            c,
            x[b]@,
            c.ngram_size - 1 + t,
        )
}

/// How a table is cut into shards does not matter: the same rows in other shards are found
/// under the same numbers.
pub proof fn sharding_is_routing(a: NGramEmbedding, b: NGramEmbedding, id: i64, row: Row)
    requires
        a.stored(),
        b.stored(),
        all_rows(shards_of(a.store)) == all_rows(shards_of(b.store)),
        a.head_offsets@ == b.head_offsets@,
        match (a.store, b.store) {
            (Store::Fp16 { .. }, Store::Fp16 { .. }) => true,
            (Store::Trellis { k, .. }, Store::Trellis { k: l, .. }) => k == l,
            _ => false,
        },
        0 <= id < a.num_rows,
        a.fetched(id, row),
    ensures
        b.fetched(id, row),
{
}

/// A row belongs to the head that starts at or before it, where the next one starts behind it.
pub proof fn rows_belong_to_the_head_they_fall_in(offsets: Seq<i64>, row: i64, h: int)
    requires
        ascending(offsets),
        0 <= h < offsets.len(),
        offsets[h] <= row,
        h + 1 < offsets.len() ==> row < offsets[h + 1],
    ensures
        owner(offsets, row) == h,
{
    lemma_not_above(offsets, row, h + 1);
}

/// The rows of a table are those of its shards in turn.
pub proof fn rows_stand_in_their_shards(shards: Seq<Vec<Vec<u16>>>, per: int, i: int, j: int)
    requires
        even(shards, per),
        0 <= i < shards.len(),
        0 <= j < shards[i].len() <= per,
    ensures
        i * per + j < all_rows(shards).len(),
        all_rows(shards)[i * per + j] == shards[i]@[j]@,
    decreases shards.len(),
{
    let t = shards.drop_last();
    lemma_all_rows(shards, per);
    if shards.len() > 1 {
        assert(t.last() == shards[shards.len() - 2]);
        assert(even(t, per));
        lemma_all_rows(t, per);
        assert((shards.len() - 2) * per + per == (shards.len() - 1) * per) by (nonlinear_arith);
    }
    if i < shards.len() - 1 {
        assert(t[i] == shards[i]);
        rows_stand_in_their_shards(t, per, i, j);
    } else if shards.len() == 1 {
        assert(i * per == 0) by (nonlinear_arith)
            requires
                i == 0,
        ;
    }
}

} // verus!
