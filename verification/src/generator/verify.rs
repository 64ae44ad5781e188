//! Speculation: how long the drafts of a round are, and how much of each is accepted.
use vstd::prelude::*;

verus! {

/// How many tokens every draft has, at most `window`.
pub open spec fn shortest(drafts: Seq<Seq<i64>>, window: int) -> int
    decreases drafts.len(),
{
    if drafts.len() == 0 {
        if window > 0 {
            window
        } else {
            0
        }
    } else {
        let n = shortest(drafts.drop_last(), window);
        if drafts.last().len() < n {
            drafts.last().len() as int
        } else {
            n
        }
    }
}

/// How many leading tokens of a draft the verifier confirms.
pub open spec fn confirmed(draft: Seq<i64>, verified: Seq<i64>) -> int
    decreases draft.len(),
{
    if draft.len() == 0 || verified.len() == 0 || draft[0] != verified[0] {
        0
    } else {
        1 + confirmed(draft.drop_first(), verified.drop_first())
    }
}

/// The tokens that a round adds: those of the draft that the verifier confirms, and the
/// verifier's own behind them.
pub open spec fn accepted(draft: Seq<i64>, verified: Seq<i64>) -> Seq<i64> {
    verified.take(confirmed(draft, verified) + 1)
}

/// Some rows of tokens.
pub open spec fn rows_of(v: Seq<Vec<i64>>) -> Seq<Seq<i64>> {
    Seq::new(v.len(), |i: int| v[i]@)
}

pub proof fn lemma_shortest(drafts: Seq<Seq<i64>>, window: int)
    ensures
        0 <= shortest(drafts, window),
        window > 0 ==> shortest(drafts, window) <= window,
        window <= 0 ==> shortest(drafts, window) == 0,
        forall|i: int| 0 <= i < drafts.len() ==> shortest(drafts, window) <= (#[trigger] drafts[i]).len(),
    decreases drafts.len(),
{
    if drafts.len() > 0 {
        lemma_shortest(drafts.drop_last(), window);
        assert forall|i: int| 0 <= i < drafts.len() implies shortest(drafts, window) <= (#[trigger] drafts[i]).len() by {
            if i < drafts.len() - 1 {
                assert(drafts.drop_last()[i] == drafts[i]);
            }
        }
    }
}

/// Cut every draft to the length of the shortest, and return that length. Where it is zero
/// nothing is speculated, and the drafts stay.
pub fn trim_drafts(drafts: &mut Vec<Vec<i64>>, window: i64) -> (r: i64)
    ensures
        r == shortest(rows_of(old(drafts)@), window as int),
        final(drafts)@.len() == old(drafts)@.len(),
        forall|i: int|
            0 <= i < final(drafts)@.len() ==> (#[trigger] final(drafts)@[i])@ == if r == 0 {
                old(drafts)@[i]@
            } else {
                old(drafts)@[i]@.take(r as int)
            },
{
    let ghost all = rows_of(drafts@);
    let ghost ds = drafts@;
    let mut n: i64 = if window > 0 {
        window
    } else {
        0
    };
    let mut i: usize = 0;
    assert(all.take(0) =~= seq![]);
    while i < drafts.len()
        invariant
            i <= drafts@.len(),
            drafts@ == ds,
            all == rows_of(ds),
            0 <= n,
            n == shortest(all.take(i as int), window as int),
        decreases drafts@.len() - i,
    {
        assert(all.take(i + 1).drop_last() =~= all.take(i as int));
        assert(all.take(i + 1).last() == ds[i as int]@);
        if (drafts[i].len() as u64) < n as u64 {
            n = drafts[i].len() as i64;
        }
        i = i + 1;
    }
    assert(all.take(i as int) =~= all);
    proof {
        lemma_shortest(all, window as int);
    }
    if n == 0 {
        return 0;
    }
    let mut k: usize = 0;
    while k < drafts.len()
        invariant
            k <= ds.len(),
            drafts@.len() == ds.len(),
            all == rows_of(ds),
            n > 0,
            forall|j: int| 0 <= j < all.len() ==> n <= (#[trigger] all[j]).len(),
            forall|j: int| 0 <= j < k ==> (#[trigger] drafts@[j])@ == ds[j]@.take(n as int),
            forall|j: int| k <= j < ds.len() ==> #[trigger] drafts@[j] == ds[j],
        decreases ds.len() - k,
    {
        assert(n <= all[k as int].len());
        let len: usize = drafts[k].len();
        assert(n <= len);
        drafts[k].truncate(n as usize);
        assert(drafts@[k as int]@ =~= ds[k as int]@.take(n as int));
        k = k + 1;
    }
    n
}

pub proof fn lemma_confirmed(draft: Seq<i64>, verified: Seq<i64>)
    ensures
        0 <= confirmed(draft, verified) <= draft.len(),
        confirmed(draft, verified) <= verified.len(),
        forall|i: int| 0 <= i < confirmed(draft, verified) ==> #[trigger] draft[i] == verified[i],
        confirmed(draft, verified) < draft.len() && confirmed(draft, verified) < verified.len() ==> draft[confirmed(
            draft,
            verified,
        )] != verified[confirmed(draft, verified)],
    decreases draft.len(),
{
    if draft.len() > 0 && verified.len() > 0 && draft[0] == verified[0] {
        let d = draft.drop_first();
        let v = verified.drop_first();
        lemma_confirmed(d, v);
        assert forall|i: int| 0 <= i < confirmed(draft, verified) implies #[trigger] draft[i] == verified[i] by {
            if i > 0 {
                assert(d[i - 1] == v[i - 1]);
            }
        }
    }
}

/// The tokens that a round adds, where the verifier's tokens are all known.
pub fn accept_prefix(draft: &Vec<i64>, verified: &Vec<i64>) -> (r: Vec<i64>)
    requires
        verified@.len() == draft@.len() + 1,
    ensures
        r@ == accepted(draft@, verified@),
        1 <= r@.len() <= draft@.len() + 1,
{
    let mut r: Vec<i64> = Vec::new();
    r.push(verified[0]);
    let mut i: usize = 0;
    proof {
        lemma_confirmed(draft@, verified@);
        assert(r@ =~= verified@.take(1));
    }
    while i < draft.len() && draft[i] == verified[i]
        invariant
            i <= draft@.len(),
            verified@.len() == draft@.len() + 1,
            r@ == verified@.take(i + 1),
            forall|j: int| 0 <= j < i ==> draft@[j] == verified@[j],
        decreases draft@.len() - i,
    {
        r.push(verified[i + 1]);
        i = i + 1;
        assert(r@ =~= verified@.take(i + 1));
    }
    proof {
        let k = confirmed(draft@, verified@);
        if k < i {
            assert(draft@[k] == verified@[k]);
        }
        if i < k {
            assert(draft@[i as int] == verified@[i as int]);
        }
    }
    r
}

/// Whether the token sampled last confirms the draft, so that the next one is sampled too.
pub fn confirms(draft: &Vec<i64>, taken: &Vec<i64>) -> (r: bool)
    requires
        taken@.len() >= 1,
    ensures
        r == (taken@.len() <= draft@.len() && draft@[taken@.len() - 1] == taken@.last()),
{
    let n: usize = taken.len();
    n <= draft.len() && draft[n - 1] == taken[n - 1]
}

/// Sampling token by token, as long as each confirms the draft, takes what a round adds.
pub proof fn sampling_stops_where_accepted(draft: Seq<i64>, verified: Seq<i64>, n: int)
    requires
        verified.len() == draft.len() + 1,
        1 <= n <= verified.len(),
        forall|i: int| 1 <= i < n ==> #[trigger] draft[i - 1] == verified[i - 1],
        !(n <= draft.len() && draft[n - 1] == verified[n - 1]),
    ensures
        accepted(draft, verified) == verified.take(n),
{
    lemma_confirmed(draft, verified);
    let k = confirmed(draft, verified);
    if k + 1 < n {
        assert(draft[(k + 1) - 1] == verified[(k + 1) - 1]);
    }
    if n < k + 1 {
        assert(draft[n - 1] == verified[n - 1]);
    }
}

/// Speculation changes no token: where the verifier's token at each place is the one that
/// `next` gives after the sequence and the draft up to there, every accepted token is the one
/// that `next` gives after the sequence and the tokens accepted before it.
pub proof fn speculation_changes_no_token(
    next: spec_fn(Seq<i64>) -> i64,
    seq: Seq<i64>,
    draft: Seq<i64>,
    verified: Seq<i64>,
    i: int,
)
    requires
        verified.len() == draft.len() + 1,
        forall|k: int| 0 <= k < verified.len() ==> #[trigger] verified[k] == next(seq + draft.take(k)),
        0 <= i < accepted(draft, verified).len(),
    ensures
        accepted(draft, verified)[i] == next(seq + accepted(draft, verified).take(i)),
{
    lemma_confirmed(draft, verified);
    let a = accepted(draft, verified);
    assert(a[i] == verified[i]);
    assert(a.take(i) =~= draft.take(i)) by {
        assert forall|j: int| 0 <= j < i implies a.take(i)[j] == draft.take(i)[j] by {
            assert(draft[j] == verified[j]);
        }
    }
}

/// A round adds at least one token, and no more than one beyond the draft.
pub proof fn rounds_add_tokens(draft: Seq<i64>, verified: Seq<i64>)
    requires
        verified.len() == draft.len() + 1,
    ensures
        1 <= accepted(draft, verified).len() <= draft.len() + 1,
{
    lemma_confirmed(draft, verified);
}

} // verus!
