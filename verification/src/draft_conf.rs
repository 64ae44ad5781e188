//! How far a drafter's confidence can be trusted: which bin of earlier outcomes speaks for a
//! score.
use vstd::prelude::*;

verus! {

/// Whether this is the bin that speaks for a score of bin `idx`: the nearest one with enough
/// outcomes that is not above it, or the lowest where all are.
pub open spec fn speaks(populated: Seq<i64>, idx: i64, bin: i64) -> bool {
    &&& populated.contains(bin)
    &&& if exists|i: int| 0 <= i < populated.len() && #[trigger] populated[i] <= idx {
        bin <= idx && forall|i: int| 0 <= i < populated.len() && #[trigger] populated[i] <= idx ==> populated[i] <= bin
    } else {
        forall|i: int| 0 <= i < populated.len() ==> bin <= #[trigger] populated[i]
    }
}

/// The bin that speaks for a score of bin `idx`, of those with enough outcomes.
pub fn pick_bin(populated: &Vec<i64>, idx: i64) -> (r: Option<i64>)
    ensures
        match r {
            Some(bin) => speaks(populated@, idx, bin),
            None => populated.len() == 0,
        },
{
    if populated.len() == 0 {
        return None;
    }
    let mut below: Option<i64> = None;
    let mut lowest: i64 = populated[0];
    let mut i: usize = 0;
    assert(populated@.contains(populated@[0]));
    while i < populated.len()
        invariant
            i <= populated.len(),
            populated@.contains(lowest),
            forall|j: int| 0 <= j < i ==> lowest <= #[trigger] populated@[j],
            match below {
                Some(b) => populated@.contains(b) && b <= idx && forall|j: int|
                    0 <= j < i && #[trigger] populated@[j] <= idx ==> populated@[j] <= b,
                None => forall|j: int| 0 <= j < i ==> #[trigger] populated@[j] > idx,
            },
        decreases populated.len() - i,
    {
        let x: i64 = populated[i];
        assert(populated@.contains(populated@[i as int]));
        if x < lowest {
            lowest = x;
        }
        if x <= idx {
            match below {
                Some(b) => {
                    if x > b {
                        below = Some(x);
                    }
                },
                None => {
                    below = Some(x);
                },
            }
        }
        i = i + 1;
    }
    match below {
        Some(b) => {
            proof {
                let k = choose|k: int| 0 <= k < populated@.len() && populated@[k] == b;
                assert(populated@[k] <= idx);
            }
            Some(b)
        },
        None => Some(lowest),
    }
}

/// Which of the drafted places are labelled once a draft is verified, and how: those that were
/// confirmed, and the first that was not.
pub fn labels(drafted: usize, confirmed: usize) -> (r: Vec<bool>)
    ensures
        r@ == Seq::new(
            if confirmed < drafted {
                (confirmed + 1) as nat
            } else {
                drafted as nat
            },
            |i: int| i < confirmed,
        ),
{
    let mut r: Vec<bool> = Vec::new();
    let mut i: usize = 0;
    while i < drafted && i < confirmed
        invariant
            i <= drafted,
            i <= confirmed,
            r@ == Seq::new(i as nat, |k: int| k < confirmed),
        decreases drafted - i,
    {
        r.push(true);
        i = i + 1;
        assert(r@ =~= Seq::new(i as nat, |k: int| k < confirmed));
    }
    if confirmed < drafted {
        r.push(false);
    }
    assert(r@ =~= Seq::new(
        if confirmed < drafted {
            (confirmed + 1) as nat
        } else {
            drafted as nat
        },
        |k: int| k < confirmed,
    ));
    r
}

} // verus!
