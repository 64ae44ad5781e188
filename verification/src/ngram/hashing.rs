//! From tokens to table rows. A window never crosses the end of a sequence: what lies behind
//! one reads as the end-of-sequence token.
use vstd::prelude::*;
use crate::arith::{fold, remainder};
use crate::ngram::table::NGramEmbedding;

verus! {

/// Whether the token `shift` places before `p` is in the sequence that `p` continues.
pub open spec fn reaches(tokens: Seq<i64>, eos: i64, p: int, shift: int) -> bool {
    &&& shift <= p
    &&& forall|i: int| p - shift <= i < p ==> #[trigger] tokens[i] != eos
}

/// The token `shift` places before `p`, or the end of sequence.
pub open spec fn shifted_at(tokens: Seq<i64>, eos: i64, p: int, shift: int) -> i64 {
    if shift == 0 || reaches(tokens, eos, p, shift) {
        tokens[p - shift]
    } else {
        eos
    }
}

/// The tokens shifted right.
pub open spec fn shifted(tokens: Seq<i64>, eos: i64, shift: int) -> Seq<i64> {
    Seq::new(tokens.len(), |p: int| shifted_at(tokens, eos, p, shift))
}

/// The hash of the `n` tokens that end at `p`.
pub open spec fn mixed(tokens: Seq<i64>, eos: i64, mult: Seq<i64>, p: int, n: nat) -> i64
    decreases n,
{
    if n <= 1 {
        shifted_at(tokens, eos, p, 0).wrapping_mul(mult[0])
    } else {
        mixed(tokens, eos, mult, p, (n - 1) as nat) ^ shifted_at(tokens, eos, p, n - 1).wrapping_mul(mult[n - 1])
    }
}

/// The row that head `h` gives position `p`.
pub open spec fn row_id(c: NGramEmbedding, tokens: Seq<i64>, p: int, h: int) -> i64 {
    let n = h / c.heads_per_ngram as int + 2;
    let m = mixed(tokens, c.eos_token_id, c.layer_multipliers@, p, n as nat);
    (remainder(m as int, c.head_vocab_sizes[h] as int) as i64).wrapping_add(c.head_offsets[h])
}

/// The rows that all heads give position `p`, in head order.
pub open spec fn row_ids(c: NGramEmbedding, tokens: Seq<i64>, p: int) -> Seq<i64> {
    Seq::new(heads_of(c), |h: int| row_id(c, tokens, p, h))
}

/// How many heads there are.
pub open spec fn heads_of(c: NGramEmbedding) -> nat {
    ((c.ngram_size - 1) * c.heads_per_ngram) as nat
}

impl NGramEmbedding {
    /// There are windows to hash, and every head has its numbers.
    pub open spec fn ready(&self) -> bool {
        &&& self.ngram_size >= 2
        &&& self.heads_per_ngram >= 0
        &&& self.layer_multipliers.len() >= self.ngram_size
        &&& self.head_offsets.len() >= heads_of(*self)
        &&& self.head_vocab_sizes.len() >= heads_of(*self)
        &&& forall|h: int| 0 <= h < heads_of(*self) ==> #[trigger] self.head_vocab_sizes[h] != 0
    }

    /// How many tokens of history each position needs before it.
    pub fn context_len(&self) -> (r: i64)
        requires
            self.ngram_size > i64::MIN,
        ensures
            r == self.ngram_size - 1,
    {
        self.ngram_size - 1
    }

    /// The tokens shifted right by `shift`. A position less than `shift` tokens into its
    /// sequence reads the end of sequence.
    pub fn shift_right_ignore_eos(&self, token_ids: &Vec<i64>, shift: usize) -> (r: Vec<i64>)
        ensures
            r@ == shifted(token_ids@, self.eos_token_id, shift as int),
    {
        let mut r: Vec<i64> = Vec::new();
        // How far position `p` is into its sequence.
        let mut into: usize = 0;
        let mut p: usize = 0;
        while p < token_ids.len()
            invariant
                p <= token_ids.len(),
                into <= p,
                forall|i: int| p - into <= i < p ==> #[trigger] token_ids@[i] != self.eos_token_id,
                into < p ==> token_ids@[p - into - 1] == self.eos_token_id,
                r@ == shifted(token_ids@, self.eos_token_id, shift as int).take(p as int),
            decreases token_ids.len() - p,
        {
            let t: i64 = if into >= shift {
                token_ids[p - shift]
            } else {
                self.eos_token_id
            };
            proof {
                let tokens = token_ids@;
                let eos = self.eos_token_id;
                if shift > into && shift <= p {
                    assert(tokens[p - into - 1] == eos);
                }
                assert(t == shifted_at(tokens, eos, p as int, shift as int));
            }
            r.push(t);
            if token_ids[p] == self.eos_token_id {
                into = 0;
            } else {
                into = into + 1;
            }
            p = p + 1;
            proof {
                let want = shifted(token_ids@, self.eos_token_id, shift as int);
                assert(want.take(p as int) =~= want.take(p - 1).push(want[p - 1]));
            }
        }
        let ghost want = shifted(token_ids@, self.eos_token_id, shift as int);
        assert(want.take(p as int) =~= want);
        r
    }

    /// The hash of the windows that end at each position, up to the longest: `r[n][p]` is that
    /// of the `n + 1` tokens that end at `p`.
    fn mixes(&self, tokens: &Vec<i64>) -> (r: Vec<Vec<i64>>)
        requires
            self.ready(),
        ensures
            r.len() == self.ngram_size,
            forall|n: int|
                0 <= n < r.len() ==> (#[trigger] r@[n])@ == Seq::new(
                    tokens@.len(),
                    |p: int| mixed(tokens@, self.eos_token_id, self.layer_multipliers@, p, (n + 1) as nat),
                ),
    {
        let ghost mult = self.layer_multipliers@;
        let ghost eos = self.eos_token_id;
        let mut r: Vec<Vec<i64>> = Vec::new();
        let mut n: usize = 0;
        while n < self.ngram_size as usize
            invariant
                self.ready(),
                mult == self.layer_multipliers@,
                eos == self.eos_token_id,
                n <= self.ngram_size,
                r.len() == n,
                forall|j: int|
                    0 <= j < n ==> (#[trigger] r@[j])@ == Seq::new(
                        tokens@.len(),
                        |p: int| mixed(tokens@, eos, mult, p, (j + 1) as nat),
                    ),
            decreases self.ngram_size - n,
        {
            let s = self.shift_right_ignore_eos(tokens, n);
            let m: i64 = self.layer_multipliers[n];
            let mut row: Vec<i64> = Vec::new();
            let mut p: usize = 0;
            while p < tokens.len()
                invariant
                    self.ready(),
                    mult == self.layer_multipliers@,
                    eos == self.eos_token_id,
                    n < self.ngram_size,
                    m == mult[n as int],
                    r.len() == n,
                    n > 0 ==> r@[n - 1]@ == Seq::new(
                        tokens@.len(),
                        |q: int| mixed(tokens@, eos, mult, q, n as nat),
                    ),
                    s@ == shifted(tokens@, eos, n as int),
                    p <= tokens.len(),
                    row@ == Seq::new(p as nat, |q: int| mixed(tokens@, eos, mult, q, (n + 1) as nat)),
                decreases tokens.len() - p,
            {
                let t: i64 = s[p].wrapping_mul(m);
                let v: i64 = if n == 0 {
                    t
                } else {
                    r[n - 1][p] ^ t
                };
                assert(v == mixed(tokens@, eos, mult, p as int, (n + 1) as nat));
                row.push(v);
                p = p + 1;
                assert(row@ =~= Seq::new(p as nat, |q: int| mixed(tokens@, eos, mult, q, (n + 1) as nat)));
            }
            r.push(row);
            n = n + 1;
        }
        r
    }

    /// The table rows of the last `out_len` positions of each history: one for each head.
    pub fn compute_ngram_ids(&self, token_history: &Vec<Vec<i64>>, out_len: i64) -> (r: Vec<Vec<Vec<i64>>>)
        requires
            self.ready(),
            out_len >= 0,
            forall|b: int| 0 <= b < token_history.len() ==> out_len <= (#[trigger] token_history[b]).len(),
        ensures
            r.len() == token_history.len(),
            forall|b: int| 0 <= b < r.len() ==> (#[trigger] r@[b]).len() == out_len,
            forall|b: int, t: int|
                0 <= b < r.len() && 0 <= t < out_len ==> (#[trigger] r@[b]@[t])@ == row_ids(
                    *self,
                    token_history@[b]@,
                    token_history@[b].len() - out_len + t,
                ),
    {
        let mut r: Vec<Vec<Vec<i64>>> = Vec::new();
        let mut b: usize = 0;
        while b < token_history.len()
            invariant
                self.ready(),
                out_len >= 0,
                forall|i: int| 0 <= i < token_history.len() ==> out_len <= (#[trigger] token_history[i]).len(),
                b <= token_history.len(),
                r.len() == b,
                forall|i: int| 0 <= i < b ==> (#[trigger] r@[i]).len() == out_len,
                forall|i: int, t: int|
                    0 <= i < b && 0 <= t < out_len ==> (#[trigger] r@[i]@[t])@ == row_ids(
                        *self,
                        token_history@[i]@,
                        token_history@[i].len() - out_len + t,
                    ),
            decreases token_history.len() - b,
        {
            let rows = self.history_ids(&token_history[b], out_len);
            r.push(rows);
            b = b + 1;
        }
        r
    }

    /// The table rows of the last `out_len` positions of a history.
    pub fn history_ids(&self, tokens: &Vec<i64>, out_len: i64) -> (r: Vec<Vec<i64>>)
        requires
            self.ready(),
            0 <= out_len <= tokens.len(),
        ensures
            r.len() == out_len,
            forall|t: int|
                0 <= t < out_len ==> (#[trigger] r@[t])@ == row_ids(*self, tokens@, tokens.len() - out_len + t),
    {
        let mixes = self.mixes(tokens);
        let mut r: Vec<Vec<i64>> = Vec::new();
        let first: usize = tokens.len() - out_len as usize;
        let mut t: usize = 0;
        while t < out_len as usize
            invariant
                self.ready(),
                0 <= out_len <= tokens.len(),
                first == tokens.len() - out_len,
                mixes.len() == self.ngram_size,
                forall|n: int|
                    0 <= n < mixes.len() ==> (#[trigger] mixes@[n])@ == Seq::new(
                        tokens@.len(),
                        |p: int| mixed(tokens@, self.eos_token_id, self.layer_multipliers@, p, (n + 1) as nat),
                    ),
                t <= out_len,
                r.len() == t,
                forall|i: int|
                    0 <= i < t ==> (#[trigger] r@[i])@ == row_ids(*self, tokens@, tokens.len() - out_len + i),
            decreases out_len - t,
        {
            let p: usize = first + t;
            let ids = self.position_ids(&mixes, p, Ghost(tokens@));
            r.push(ids);
            t = t + 1;
        }
        r
    }

    fn position_ids(&self, mixes: &Vec<Vec<i64>>, p: usize, Ghost(tokens): Ghost<Seq<i64>>) -> (r: Vec<i64>)
        requires
            self.ready(),
            p < tokens.len(),
            mixes.len() == self.ngram_size,
            forall|n: int|
                0 <= n < mixes.len() ==> (#[trigger] mixes@[n])@ == Seq::new(
                    tokens.len(),
                    |q: int| mixed(tokens, self.eos_token_id, self.layer_multipliers@, q, (n + 1) as nat),
                ),
        ensures
            r@ == row_ids(*self, tokens, p as int),
    {
        let mut r: Vec<i64> = Vec::new();
        proof {
            let most = self.ngram_size - 1;
            let each = self.heads_per_ngram as int;
            assert(each <= most * each) by (nonlinear_arith)
                requires
                    most >= 1,
                    each >= 0,
            ;
        }
        let per: usize = self.heads_per_ngram as usize;
        let mut n: usize = 1;
        assert(0 * per == 0);
        while n < self.ngram_size as usize
            invariant
                self.ready(),
                p < tokens.len(),
                per == self.heads_per_ngram,
                1 <= n <= self.ngram_size,
                mixes.len() == self.ngram_size,
                forall|j: int|
                    0 <= j < mixes.len() ==> (#[trigger] mixes@[j])@ == Seq::new(
                        tokens.len(),
                        |q: int| mixed(tokens, self.eos_token_id, self.layer_multipliers@, q, (j + 1) as nat),
                    ),
                r@ == row_ids(*self, tokens, p as int).take((n - 1) * per),
                (n - 1) * per <= heads_of(*self),
            decreases self.ngram_size - n,
        {
            let m: i64 = mixes[n][p];
            let ghost all = row_ids(*self, tokens, p as int);
            let mut i: usize = 0;
            proof {
                assert((n - 1) * per + per == n * per) by (nonlinear_arith);
                assert(n * per <= (self.ngram_size - 1) * per) by (nonlinear_arith)
                    requires
                        n <= self.ngram_size - 1,
                ;
            }
            while i < per
                invariant
                    self.ready(),
                    per == self.heads_per_ngram,
                    1 <= n < self.ngram_size,
                    i <= per,
                    all == row_ids(*self, tokens, p as int),
                    m == mixed(tokens, self.eos_token_id, self.layer_multipliers@, p as int, (n + 1) as nat),
                    (n - 1) * per + per == n * per,
                    n * per <= heads_of(*self),
                    r@ == all.take((n - 1) * per + i),
                    r@.len() == (n - 1) * per + i,
                decreases per - i,
            {
                let h: usize = r.len();
                proof {
                    assert(h as int / per as int == n - 1) by (nonlinear_arith)
                        requires
                            h == (n - 1) * per + i,
                            0 <= i < per,
                    ;
                }
                let id: i64 = fold(m, self.head_vocab_sizes[h]).wrapping_add(self.head_offsets[h]);
                assert(id == all[h as int]);
                r.push(id);
                i = i + 1;
                assert(all.take(h + 1) =~= all.take(h as int).push(all[h as int]));
            }
            n = n + 1;
        }
        assert(row_ids(*self, tokens, p as int).take(heads_of(*self) as int) =~= row_ids(*self, tokens, p as int));
        r
    }
}

/// Every head's rows lie in that head's part of the table.
pub proof fn ids_stay_inside_their_head(c: NGramEmbedding, tokens: Seq<i64>, p: int, h: int)
    requires
        c.ready(),
        0 <= p < tokens.len(),
        0 <= h < heads_of(c),
        c.head_vocab_sizes[h] > 0,
        i64::MIN <= c.head_offsets[h] + c.head_vocab_sizes[h] <= i64::MAX,
    ensures
        c.head_offsets[h] <= row_id(c, tokens, p, h) < c.head_offsets[h] + c.head_vocab_sizes[h],
{
}

proof fn lemma_mixed_same(a: Seq<i64>, b: Seq<i64>, eos: i64, mult: Seq<i64>, p: int, q: int, n: nat)
    requires
        n >= 1,
        forall|s: int| 0 <= s < n ==> #[trigger] shifted_at(a, eos, p, s) == shifted_at(b, eos, q, s),
    ensures
        mixed(a, eos, mult, p, n) == mixed(b, eos, mult, q, n),
    decreases n,
{
    assert(shifted_at(a, eos, p, 0) == shifted_at(b, eos, q, 0));
    if n > 1 {
        lemma_mixed_same(a, b, eos, mult, p, q, (n - 1) as nat);
        assert(shifted_at(a, eos, p, n - 1) == shifted_at(b, eos, q, n - 1));
    }
}

proof fn lemma_rows_same(c: NGramEmbedding, a: Seq<i64>, b: Seq<i64>, p: int, q: int)
    requires
        c.ready(),
        forall|s: int|
            0 <= s < c.ngram_size ==> #[trigger] shifted_at(a, c.eos_token_id, p, s) == shifted_at(
                b,
                c.eos_token_id,
                q,
                s,
            ),
    ensures
        row_ids(c, a, p) == row_ids(c, b, q),
{
    assert forall|h: int| 0 <= h < heads_of(c) implies row_id(c, a, p, h) == row_id(c, b, q, h) by {
        let n = h / c.heads_per_ngram as int + 2;
        let per = c.heads_per_ngram as int;
        let most = c.ngram_size - 1;
        assert(0 <= h / per && h / per < most) by (nonlinear_arith)
            requires
                0 <= h < most * per,
                per >= 0,
        ;
        lemma_mixed_same(a, b, c.eos_token_id, c.layer_multipliers@, p, q, n as nat);
    }
    assert(row_ids(c, a, p) =~= row_ids(c, b, q));
}

/// What precedes the end of a sequence does not matter behind it: the positions behind it hash
/// as in a history that starts there.
pub proof fn hashing_does_not_span_an_end(c: NGramEmbedding, tokens: Seq<i64>, e: int, p: int)
    requires
        c.ready(),
        0 <= e < p < tokens.len(),
        tokens[e] == c.eos_token_id,
    ensures
        row_ids(c, tokens, p) == row_ids(c, tokens.skip(e + 1), p - e - 1),
{
    let rest = tokens.skip(e + 1);
    let q = p - e - 1;
    let eos = c.eos_token_id;
    assert forall|s: int| 0 <= s < c.ngram_size implies #[trigger] shifted_at(tokens, eos, p, s) == shifted_at(
        rest,
        eos,
        q,
        s,
    ) by {
        if s > 0 {
            if s <= q {
                assert forall|i: int| q - s <= i < q implies #[trigger] rest[i] == tokens[i + e + 1] by {}
                if reaches(rest, eos, q, s) {
                    assert forall|i: int| p - s <= i < p implies #[trigger] tokens[i] != eos by {
                        assert(rest[i - e - 1] != eos);
                    }
                }
                if reaches(tokens, eos, p, s) {
                    assert forall|i: int| q - s <= i < q implies #[trigger] rest[i] != eos by {
                        assert(tokens[i + e + 1] != eos);
                    }
                }
            } else {
                assert(tokens[e] == eos);
            }
        }
    }
    lemma_rows_same(c, tokens, rest, p, q);
}

/// The rows of a position depend on the longest window that ends there, and on nothing else.
pub proof fn ids_are_position_local(c: NGramEmbedding, a: Seq<i64>, b: Seq<i64>, p: int, q: int)
    requires
        c.ready(),
        c.ngram_size - 1 <= p < a.len(),
        c.ngram_size - 1 <= q < b.len(),
        a.subrange(p - c.ngram_size + 1, p + 1) == b.subrange(q - c.ngram_size + 1, q + 1),
    ensures
        row_ids(c, a, p) == row_ids(c, b, q),
{
    let eos = c.eos_token_id;
    let x = a.subrange(p - c.ngram_size + 1, p + 1);
    let y = b.subrange(q - c.ngram_size + 1, q + 1);
    assert forall|s: int| 0 <= s < c.ngram_size implies #[trigger] a[p - s] == b[q - s] by {
        assert(x[c.ngram_size - 1 - s] == y[c.ngram_size - 1 - s]);
    }
    assert forall|s: int| 0 <= s < c.ngram_size implies #[trigger] shifted_at(a, eos, p, s) == shifted_at(b, eos, q, s) by {
        assert(a[p - s] == b[q - s]);
        if reaches(a, eos, p, s) {
            assert forall|i: int| q - s <= i < q implies #[trigger] b[i] != eos by {
                assert(a[p - (q - i)] == b[q - (q - i)]);
            }
        }
        if reaches(b, eos, q, s) {
            assert forall|i: int| p - s <= i < p implies #[trigger] a[i] != eos by {
                assert(a[p - (p - i)] == b[q - (p - i)]);
            }
        }
    }
    lemma_rows_same(c, a, b, p, q);
}

/// A window is hashed token by token: the token at its end by the first multiplier, and each one
/// before that, as far as no end of sequence stands between, by the next.
pub proof fn windows_are_hashed_token_by_token(tokens: Seq<i64>, eos: i64, mult: Seq<i64>, p: int, n: nat)
    requires
        1 <= n <= p < tokens.len(),
        forall|i: int| p - n <= i < p ==> #[trigger] tokens[i] != eos,
    ensures
        mixed(tokens, eos, mult, p, 1) == tokens[p].wrapping_mul(mult[0]),
        mixed(tokens, eos, mult, p, n + 1) == mixed(tokens, eos, mult, p, n) ^ tokens[p - n].wrapping_mul(mult[n as int]),
{
    assert(reaches(tokens, eos, p, n as int));
}

/// The first heads hash windows of two tokens, the next ones windows of three, and so on: the row
/// of a head, from the start of its rows, is the remainder of that hash.
pub proof fn heads_hash_windows_of_their_length(c: NGramEmbedding, tokens: Seq<i64>, p: int, n: int, j: int)
    requires
        c.ready(),
        0 <= p < tokens.len(),
        2 <= n <= c.ngram_size,
        0 <= j < c.heads_per_ngram,
        c.head_vocab_sizes[(n - 2) * c.heads_per_ngram + j] > 0,
        i64::MIN <= c.head_offsets[(n - 2) * c.heads_per_ngram + j] + c.head_vocab_sizes[(n - 2) * c.heads_per_ngram + j]
            <= i64::MAX,
        mixed(tokens, c.eos_token_id, c.layer_multipliers@, p, n as nat) >= 0,
    ensures
        ({
            let h = (n - 2) * c.heads_per_ngram + j;
            row_id(c, tokens, p, h) - c.head_offsets[h] == mixed(
                tokens,
                c.eos_token_id,
                c.layer_multipliers@,
                p,
                n as nat,
            ) as int % c.head_vocab_sizes[h] as int
        }),
{
    let k = c.heads_per_ngram as int;
    let h = (n - 2) * k + j;
    vstd::arithmetic::div_mod::lemma_fundamental_div_mod_converse(h, k, n - 2, j);
    assert(h / k == n - 2);
    let m = mixed(tokens, c.eos_token_id, c.layer_multipliers@, p, n as nat) as int;
    let v = c.head_vocab_sizes[h] as int;
    vstd::arithmetic::div_mod::lemma_mod_bound(m, v);
}

} // verus!
