//! The multi-token head: a small second model that drafts. At each place it is fed the token
//! there and the trunk's hidden state of the place before.
use vstd::prelude::*;
use crate::tensors::{find, present, TensorInfo};

verus! {

/// Whether a checkpoint has a multi-token head.
pub fn has_head(infos: &Vec<TensorInfo>) -> (r: bool)
    ensures
        r == (present(infos@, "mtp.fc.trellis"@) || present(infos@, "mtp.fc.weight"@)),
{
    find(infos, "mtp.fc.trellis").is_some() || find(infos, "mtp.fc.weight").is_some()
}

/// How many places the head's own cache has, for one sequence.
pub fn cache_len(max_position_embeddings: i64) -> (r: i64)
    ensures
        r == if max_position_embeddings >= 4096 {
            max_position_embeddings
        } else {
            4096
        },
{
    if max_position_embeddings >= 4096 {
        max_position_embeddings
    } else {
        4096
    }
}

/// The places that `n` drafting steps write for each row, step after step: row `r` starts at
/// `q[r]`.
pub fn draft_places(q: &Vec<i64>, n: usize) -> (r: Vec<i32>)
    requires
        n * q.len() <= usize::MAX,
        forall|i: int| 0 <= i < q.len() ==> 0 <= #[trigger] q[i] && q[i] + n <= i32::MAX,
    ensures
        r.len() == n * q.len(),
        forall|s: int, i: int|
            0 <= s < n && 0 <= i < q.len() ==> #[trigger] r@[s * q.len() + i] == q[i] + s,
{
    let len: usize = q.len();
    let mut r: Vec<i32> = Vec::new();
    let mut s: usize = 0;
    assert(0 * len == 0);
    while s < n
        invariant
            len == q.len(),
            forall|i: int| 0 <= i < q.len() ==> 0 <= #[trigger] q[i] && q[i] + n <= i32::MAX,
            s <= n,
            r.len() == s * len,
            forall|t: int, i: int| 0 <= t < s && 0 <= i < len ==> #[trigger] r@[t * len + i] == q[i] + t,
        decreases n - s,
    {
        let ghost before = r@;
        let mut i: usize = 0;
        while i < len
            invariant
                len == q.len(),
                forall|j: int| 0 <= j < q.len() ==> 0 <= #[trigger] q[j] && q[j] + n <= i32::MAX,
                s < n,
                i <= len,
                before.len() == s * len,
                r@ == before + Seq::new(i as nat, |j: int| (q[j] + s) as i32),
            decreases len - i,
        {
            assert(0 <= q[i as int] && q[i as int] + n <= i32::MAX);
            r.push((q[i] + s as i64) as i32);
            i = i + 1;
            assert(r@ =~= before + Seq::new(i as nat, |j: int| (q[j] + s) as i32));
        }
        s = s + 1;
        proof {
            let k = s - 1;
            assert(s * len == k * len + len) by (nonlinear_arith)
                requires
                    s == k + 1,
            ;
            assert forall|t: int, i: int| 0 <= t < s && 0 <= i < len implies #[trigger] r@[t * len + i] == q[i] + t by {
                if t < k {
                    assert(t * len + i < k * len) by (nonlinear_arith)
                        requires
                            0 <= t < k,
                            0 <= i < len,
                    ;
                    assert(0 <= t * len) by (nonlinear_arith)
                        requires
                            0 <= t,
                            0 <= len,
                    ;
                    assert(before[t * len + i] == q[i] + t);
                } else {
                    assert(0 <= q[i] && q[i] + n <= i32::MAX);
                    assert(r@[k * len + i] == (q[i] + k) as i32);
                }
            }
        }
    }
    r
}

/// One step of the head that only fills its cache.
#[derive(Clone, Copy, Debug, PartialEq, Eq, Structural)]
pub struct FillStep {
    /// The token fed.
    pub token: i64,
    /// The place it is fed at.
    pub place: i64,
    /// Which of the trunk's hidden states goes with it; none for the one carried over.
    pub hidden: Option<usize>,
}

/// The steps that prime the head with a part of a prompt that starts at `base`: each place gets
/// the hidden state of the place before, the first one that which is carried over.
pub fn prime_steps(toks: &Vec<i64>, base: i64) -> (r: Vec<FillStep>)
    requires
        0 <= base,
        base + toks.len() <= i64::MAX,
    ensures
        r@ == Seq::new(
            toks@.len(),
            |i: int|
                FillStep {
                    token: toks@[i],
                    place: (base + i) as i64,
                    hidden: if i == 0 {
                        None
                    } else {
                        Some((i - 1) as usize)
                    },
                },
        ),
{
    let mut r: Vec<FillStep> = Vec::new();
    let mut i: usize = 0;
    while i < toks.len()
        invariant
            0 <= base,
            base + toks.len() <= i64::MAX,
            i <= toks.len(),
            r@ == Seq::new(
                i as nat,
                |j: int|
                    FillStep {
                        token: toks@[j],
                        place: (base + j) as i64,
                        hidden: if j == 0 {
                            None
                        } else {
                            Some((j - 1) as usize)
                        },
                    },
            ),
        decreases toks.len() - i,
    {
        let hidden: Option<usize> = if i == 0 {
            None
        } else {
            Some(i - 1)
        };
        r.push(FillStep { token: toks[i], place: base + i as i64, hidden });
        i = i + 1;
        assert(r@ =~= Seq::new(
            i as nat,
            |j: int|
                FillStep {
                    token: toks@[j],
                    place: (base + j) as i64,
                    hidden: if j == 0 {
                        None
                    } else {
                        Some((j - 1) as usize)
                    },
                },
        ));
    }
    r
}

/// The steps that write over what drafting left at the places of accepted tokens: token `j`
/// stands at `q + 1 + j`, and the trunk's hidden states are those of `q` on.
pub fn sync_steps(committed: &Vec<i64>, q: i64) -> (r: Vec<FillStep>)
    requires
        0 <= q,
        q + 1 + committed.len() <= i64::MAX,
    ensures
        r@ == Seq::new(
            committed@.len(),
            |j: int| FillStep { token: committed@[j], place: (q + 1 + j) as i64, hidden: Some(j as usize) },
        ),
{
    let mut r: Vec<FillStep> = Vec::new();
    let mut j: usize = 0;
    while j < committed.len()
        invariant
            0 <= q,
            q + 1 + committed.len() <= i64::MAX,
            j <= committed.len(),
            r@ == Seq::new(
                j as nat,
                |i: int| FillStep { token: committed@[i], place: (q + 1 + i) as i64, hidden: Some(i as usize) },
            ),
        decreases committed.len() - j,
    {
        r.push(FillStep { token: committed[j], place: q + 1 + j as i64, hidden: Some(j) });
        j = j + 1;
        assert(r@ =~= Seq::new(
            j as nat,
            |i: int| FillStep { token: committed@[i], place: (q + 1 + i) as i64, hidden: Some(i as usize) },
        ));
    }
    r
}

} // verus!
