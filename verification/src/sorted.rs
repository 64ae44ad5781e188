//! Lists of numbers, each once, from the lowest up.
use vstd::prelude::*;

verus! {

/// Every number is above the one before.
pub open spec fn rising(v: Seq<i64>) -> bool {
    forall|i: int, j: int| 0 <= i < j < v.len() ==> #[trigger] v[i] < #[trigger] v[j]
}

/// The first place at which a number is not below `x`.
pub fn lower(v: &Vec<i64>, x: i64) -> (r: usize)
    requires
        rising(v@),
    ensures
        r <= v.len(),
        forall|i: int| 0 <= i < r ==> #[trigger] v@[i] < x,
        forall|i: int| r <= i < v.len() ==> #[trigger] v@[i] >= x,
{
    let mut lo: usize = 0;
    let mut hi: usize = v.len();
    while lo < hi
        invariant
            rising(v@),
            lo <= hi <= v.len(),
            forall|i: int| 0 <= i < lo ==> #[trigger] v@[i] < x,
            forall|i: int| hi <= i < v.len() ==> #[trigger] v@[i] >= x,
        decreases hi - lo,
    {
        let mid: usize = lo + (hi - lo) / 2;
        if v[mid] < x {
            assert forall|i: int| 0 <= i < mid + 1 implies #[trigger] v@[i] < x by {
                if i < mid {
                    assert(v@[i] < v@[mid as int]);
                }
            }
            lo = mid + 1;
        } else {
            assert forall|i: int| mid <= i < v.len() implies #[trigger] v@[i] >= x by {
                if i > mid {
                    assert(v@[mid as int] < v@[i]);
                }
            }
            hi = mid;
        }
    }
    lo
}

/// Put a number in its place, once. Returns whether it was not there before.
pub fn insert(v: &mut Vec<i64>, x: i64) -> (fresh: bool)
    requires
        rising(old(v)@),
    ensures
        rising(final(v)@),
        fresh == !old(v)@.contains(x),
        forall|y: i64| #[trigger] final(v)@.contains(y) <==> old(v)@.contains(y) || y == x,
        !fresh ==> final(v)@ == old(v)@,
{
    let ghost before = v@;
    let at = lower(v, x);
    if at < v.len() && v[at] == x {
        assert(before[at as int] == x);
        return false;
    }
    proof {
        if before.contains(x) {
            let k = choose|k: int| 0 <= k < before.len() && before[k] == x;
            if k > at {
                assert(before[at as int] < before[k]);
            }
        }
    }
    v.insert(at, x);
    proof {
        let at = at as int;
        assert(v@ == before.insert(at, x));
        assert forall|y: i64| #[trigger] v@.contains(y) <==> before.contains(y) || y == x by {
            if before.contains(y) {
                let k = choose|k: int| 0 <= k < before.len() && before[k] == y;
                assert(v@[if k < at {
                    k
                } else {
                    k + 1
                }] == y);
            }
            if y == x {
                assert(v@[at] == x);
            }
            if v@.contains(y) && y != x {
                let k = choose|k: int| 0 <= k < v@.len() && v@[k] == y;
                assert(before[if k < at {
                    k
                } else {
                    k - 1
                }] == y);
            }
        }
        assert forall|a: int, b: int| 0 <= a < b < v@.len() implies #[trigger] v@[a] < #[trigger] v@[b] by {
            if a < at && b > at {
                assert(before[a] < before[b - 1]);
            }
        }
    }
    true
}

} // verus!
