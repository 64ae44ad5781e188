//! Keys in the order of their last use.
use vstd::prelude::*;

verus! {

/// Keys in the order of their last use, after one was used.
pub open spec fn renewed<T>(order: Seq<T>, sig: T) -> Seq<T> {
    if order.contains(sig) {
        order.remove(order.index_of(sig)).push(sig)
    } else {
        order.push(sig)
    }
}

/// What a use keeps.
pub proof fn lemma_renewed<T>(order: Seq<T>, sig: T)
    requires
        order.no_duplicates(),
    ensures
        renewed(order, sig).no_duplicates(),
        renewed(order, sig).len() == order.len() + if order.contains(sig) {
            0int
        } else {
            1
        },
        renewed(order, sig).last() == sig,
        forall|x: T| #[trigger] renewed(order, sig).contains(x) == (order.contains(x) || x == sig),
{
    let next = renewed(order, sig);
    if order.contains(sig) {
        let i = order.index_of(sig);
        let rest = order.remove(i);
        assert(order[i] == sig);
        assert forall|x: T| #[trigger] next.contains(x) == (order.contains(x) || x == sig) by {
            if next.contains(x) {
                let k = choose|k: int| 0 <= k < next.len() && next[k] == x;
                if k < i {
                    assert(order[k] == x);
                } else if k < rest.len() {
                    assert(order[k + 1] == x);
                }
            }
            if order.contains(x) && x != sig {
                let k = choose|k: int| 0 <= k < order.len() && order[k] == x;
                if k < i {
                    assert(next[k] == x);
                } else {
                    assert(next[k - 1] == x);
                }
            }
            if x == sig {
                assert(next[next.len() - 1] == x);
            }
        }
    } else {
        assert forall|x: T| #[trigger] next.contains(x) == (order.contains(x) || x == sig) by {
            if next.contains(x) {
                let k = choose|k: int| 0 <= k < next.len() && next[k] == x;
                if k < order.len() {
                    assert(order[k] == x);
                }
            }
            if order.contains(x) {
                let k = choose|k: int| 0 <= k < order.len() && order[k] == x;
                assert(next[k] == x);
            }
            if x == sig {
                assert(next[next.len() - 1] == x);
            }
        }
    }
}

/// Mark a key as used.
pub fn renew(keys: &mut Vec<u128>, key: u128)
    requires
        old(keys)@.no_duplicates(),
    ensures
        final(keys)@ == renewed(old(keys)@, key),
{
    let ghost before = keys@;
    let mut i: usize = 0;
    while i < keys.len() && keys[i] != key
        invariant
            keys@ == before,
            i <= keys@.len(),
            forall|j: int| 0 <= j < i ==> keys@[j] != key,
        decreases keys@.len() - i,
    {
        i = i + 1;
    }
    if i < keys.len() {
        proof {
            assert(before.contains(key));
            assert(before[before.index_of(key)] == key);
        }
        keys.remove(i);
    }
    keys.push(key);
    assert(keys@ =~= renewed(before, key));
}

/// A use leaves the other keys in their order: of two of them, the one that was used longer ago
/// stays before the other.
pub proof fn uses_keep_the_order_of_the_others<T>(order: Seq<T>, sig: T, i: int, j: int)
    requires
        order.no_duplicates(),
        0 <= i < j < order.len(),
        order[i] != sig,
        order[j] != sig,
    ensures
        exists|a: int, b: int|
            0 <= a < b < renewed(order, sig).len() && #[trigger] renewed(order, sig)[a] == order[i] && #[trigger] renewed(
                order,
                sig,
            )[b] == order[j],
{
    let next = renewed(order, sig);
    if order.contains(sig) {
        let k = order.index_of(sig);
        assert(order[k] == sig);
        let a = if i < k {
            i
        } else {
            i - 1
        };
        let b = if j < k {
            j
        } else {
            j - 1
        };
        assert(next[a] == order[i]);
        assert(next[b] == order[j]);
    } else {
        assert(next[i] == order[i]);
        assert(next[j] == order[j]);
    }
}

} // verus!
