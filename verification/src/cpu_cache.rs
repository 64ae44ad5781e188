//! The books of the host-memory tier for evicted pages: which slot holds which page.
//!
//! When a complete, hashed page is repurposed, its content is copied to a host slot under its
//! hash. A later prompt with that hash gets the content back by a copy.
use vstd::prelude::*;
use vstd::bytes::u128_from_le_bytes;
use crate::paged::{key_of, page_count, pages_for, PageHash};
use std::collections::HashMap;
use std::collections::VecDeque;

verus! {

broadcast use vstd::std_specs::hash::group_hash_axioms;

/// The state of the tier.
#[verifier::ext_equal]
pub struct Slots {
    /// For each slot the hash of its page.
    pub hash: Seq<Option<u128>>,
    /// For each hash its slot.
    pub by_hash: Map<u128, usize>,
    /// The slots in use, the least recently used first.
    pub lru: Seq<usize>,
    /// The slots never used.
    pub free: Seq<usize>,
}

/// Where `x` first stands in `s`; the length where it does not.
pub open spec fn place_of(s: Seq<usize>, x: usize) -> int
    decreases s.len(),
{
    if s.len() == 0 {
        0
    } else {
        let k = place_of(s.drop_last(), x);
        if k < s.len() - 1 || s.last() == x {
            k
        } else {
            s.len() as int
        }
    }
}

/// Slots for `max_tokens` tokens, one at least, none of them used.
pub open spec fn new_slots(max_tokens: int) -> Slots {
    let n: nat = if page_count(max_tokens) >= 1 {
        page_count(max_tokens) as nat
    } else {
        1
    };
    Slots {
        hash: Seq::new(n, |i: int| None::<u128>),
        by_hash: Map::empty(),
        lru: seq![],
        free: Seq::new(n, |i: int| (n - 1 - i) as usize),
    }
}

/// A slot for a new page: one never used, else the least recently used one, which loses its
/// page.
pub open spec fn freed(p: Slots) -> (Slots, usize) {
    if p.free.len() > 0 {
        (Slots { free: p.free.drop_last(), ..p }, p.free.last())
    } else {
        let s = p.lru[0];
        (
            Slots {
                lru: p.lru.drop_first(),
                hash: p.hash.update(s as int, None),
                by_hash: match p.hash[s as int] {
                    Some(h) => p.by_hash.remove(h),
                    None => p.by_hash,
                },
                ..p
            },
            s,
        )
    }
}

/// The tier after a page with hash `h` came in.
pub open spec fn pushed(p: Slots, h: u128) -> Slots {
    if p.by_hash.contains_key(h) {
        p
    } else {
        let (q, s) = freed(p);
        Slots {
            hash: q.hash.update(s as int, Some(h)),
            by_hash: q.by_hash.insert(h, s),
            lru: q.lru.push(s),
            ..q
        }
    }
}

/// The tier after the page with hash `h` was used.
pub open spec fn used(p: Slots, h: u128) -> Slots {
    if !p.by_hash.contains_key(h) {
        p
    } else {
        let s = p.by_hash[h];
        let k = place_of(p.lru, s);
        Slots {
            lru: (if k < p.lru.len() {
                p.lru.remove(k)
            } else {
                p.lru
            }).push(s),
            ..p
        }
    }
}

/// Whether a slot stands in a list.
pub open spec fn listed(s: Seq<usize>, x: usize) -> bool {
    exists|i: int| 0 <= i < s.len() && #[trigger] s[i] == x
}

/// What the tier keeps: a hash leads to the slot that has it, slots in use are in the order of
/// use, and every slot is in use or free.
pub open spec fn slots_ok(p: Slots) -> bool {
    &&& p.hash.len() >= 1
    &&& p.free.len() + p.lru.len() == p.hash.len()
    &&& forall|i: int| 0 <= i < p.free.len() ==> (#[trigger] p.free[i]) < p.hash.len() && p.hash[p.free[i] as int]
        is None
    &&& forall|i: int, j: int| 0 <= i < j < p.free.len() ==> #[trigger] p.free[i] != #[trigger] p.free[j]
    &&& forall|i: int| 0 <= i < p.lru.len() ==> (#[trigger] p.lru[i]) < p.hash.len()
    &&& forall|i: int, j: int| 0 <= i < j < p.lru.len() ==> #[trigger] p.lru[i] != #[trigger] p.lru[j]
    &&& forall|i: int, j: int| 0 <= i < p.free.len() && 0 <= j < p.lru.len() ==> #[trigger] p.free[i] != #[trigger] p.lru[j]
    &&& forall|h: u128| #[trigger]
        p.by_hash.contains_key(h) ==> p.by_hash[h] < p.hash.len() && p.hash[p.by_hash[h] as int] == Some(h)
            && listed(p.lru, p.by_hash[h])
    &&& forall|s: int|
        0 <= s < p.hash.len() && (#[trigger] p.hash[s]) is Some ==> p.by_hash.contains_key(p.hash[s]->0)
            && p.by_hash[p.hash[s]->0] == s
}

proof fn lemma_place(s: Seq<usize>, x: usize)
    ensures
        0 <= place_of(s, x) <= s.len(),
        place_of(s, x) < s.len() ==> s[place_of(s, x)] == x,
        place_of(s, x) < s.len() <==> listed(s, x),
        forall|i: int| 0 <= i < place_of(s, x) ==> s[i] != x,
    decreases s.len(),
{
    if s.len() > 0 {
        let t = s.drop_last();
        lemma_place(t, x);
        let k = place_of(t, x);
        assert forall|i: int| 0 <= i < k implies s[i] != x by {
            assert(t[i] != x);
        }
        if listed(s, x) {
            let i = choose|i: int| 0 <= i < s.len() && #[trigger] s[i] == x;
            if i < t.len() {
                assert(t[i] == x);
            }
        }
        if listed(t, x) {
            let i = choose|i: int| 0 <= i < t.len() && #[trigger] t[i] == x;
            assert(s[i] == x);
        }
        if s.last() == x {
            assert(s[s.len() - 1] == x);
        }
        if k == t.len() && s.last() != x {
            assert forall|i: int| 0 <= i < s.len() implies s[i] != x by {
                if i < t.len() {
                    assert(t[i] != x);
                }
            }
        }
    }
}

/// Bringing a page in keeps the books, and the page is found.
pub proof fn pushing_keeps_books(p: Slots, h: u128)
    requires
        slots_ok(p),
    ensures
        slots_ok(pushed(p, h)),
        pushed(p, h).by_hash.contains_key(h),
        pushed(p, h).hash.len() == p.hash.len(),
{
    if !p.by_hash.contains_key(h) {
        let (q, s) = freed(p);
        let n = pushed(p, h);
        if p.free.len() > 0 {
            assert(p.free[p.free.len() - 1] == s);
        } else {
            assert(p.lru[0] == s);
        }
        assert(n.lru[n.lru.len() - 1] == s);
        assert forall|k: u128| #[trigger] n.by_hash.contains_key(k) implies n.by_hash[k] < n.hash.len()
            && n.hash[n.by_hash[k] as int] == Some(k) && listed(n.lru, n.by_hash[k]) by {
            if k == h {
                assert(listed(n.lru, s));
            } else {
                assert(p.by_hash.contains_key(k));
                let x = p.by_hash[k];
                assert(p.hash[x as int] == Some(k));
                if x == s && p.free.len() > 0 {
                    assert(p.hash[p.free[p.free.len() - 1] as int] is None);
                }
                assert(x != s);
                let i = choose|i: int| 0 <= i < p.lru.len() && #[trigger] p.lru[i] == x;
                if p.free.len() > 0 {
                    assert(n.lru[i] == x);
                } else {
                    assert(i > 0);
                    assert(n.lru[i - 1] == x);
                }
            }
        }
        assert forall|x: int| 0 <= x < n.hash.len() && (#[trigger] n.hash[x]) is Some implies n.by_hash.contains_key(
            n.hash[x]->0,
        ) && n.by_hash[n.hash[x]->0] == x by {
            if x != s {
                assert(p.hash[x] == n.hash[x]);
                if p.free.len() == 0 && p.hash[s as int] is Some {
                    assert(p.by_hash[p.hash[s as int]->0] == s);
                }
            }
        }
        assert forall|i: int| 0 <= i < n.free.len() implies (#[trigger] n.free[i]) < n.hash.len()
            && n.hash[n.free[i] as int] is None by {
            assert(n.free[i] == p.free[i]);
            assert(p.free[i] != p.free[p.free.len() - 1]);
        }
        let d: int = if p.free.len() > 0 {
            0
        } else {
            1
        };
        assert forall|i: int| 0 <= i < q.lru.len() implies #[trigger] n.lru[i] == p.lru[i + d] by {}
        assert forall|i: int| 0 <= i < n.lru.len() implies (#[trigger] n.lru[i]) < n.hash.len() by {
            if i < q.lru.len() {
                assert(n.lru[i] == p.lru[i + d]);
            }
        }
        assert forall|i: int, j: int| 0 <= i < j < n.lru.len() implies #[trigger] n.lru[i] != #[trigger] n.lru[j] by {
            assert(n.lru[i] == p.lru[i + d]);
            if j < q.lru.len() {
                assert(n.lru[j] == p.lru[j + d]);
            } else if p.free.len() > 0 {
                assert(p.free[p.free.len() - 1] != p.lru[i]);
            } else {
                assert(p.lru[0] != p.lru[i + 1]);
            }
        }
        assert forall|i: int, j: int| 0 <= i < n.free.len() && 0 <= j < n.lru.len() implies #[trigger] n.free[i]
            != #[trigger] n.lru[j] by {
            assert(n.free[i] == p.free[i]);
            if j < q.lru.len() {
                assert(n.lru[j] == p.lru[j + d]);
            } else {
                assert(p.free[i] != p.free[p.free.len() - 1]);
            }
        }
    }
}

/// Using a page keeps the books.
pub proof fn using_keeps_books(p: Slots, h: u128)
    requires
        slots_ok(p),
    ensures
        slots_ok(used(p, h)),
        used(p, h).by_hash == p.by_hash,
        used(p, h).hash == p.hash,
{
    if p.by_hash.contains_key(h) {
        let s = p.by_hash[h];
        lemma_place(p.lru, s);
        let k = place_of(p.lru, s);
        let n = used(p, h);
        assert(n.lru[n.lru.len() - 1] == s);
        assert forall|x: u128| #[trigger] n.by_hash.contains_key(x) implies listed(n.lru, n.by_hash[x]) by {
            let y = p.by_hash[x];
            let i = choose|i: int| 0 <= i < p.lru.len() && #[trigger] p.lru[i] == y;
            if y == s {
                assert(n.lru[n.lru.len() - 1] == y);
            } else if i < k {
                assert(n.lru[i] == y);
            } else {
                assert(n.lru[i - 1] == y);
            }
        }
        assert forall|i: int| 0 <= i < n.lru.len() - 1 implies #[trigger] n.lru[i] == p.lru[if i < k {
            i
        } else {
            i + 1
        }] by {}
        assert forall|i: int| 0 <= i < n.lru.len() implies (#[trigger] n.lru[i]) < n.hash.len() by {
            if i < n.lru.len() - 1 {
                let a = if i < k {
                    i
                } else {
                    i + 1
                };
                assert(n.lru[i] == p.lru[a]);
            }
        }
        assert forall|i: int, j: int| 0 <= i < j < n.lru.len() implies #[trigger] n.lru[i] != #[trigger] n.lru[j] by {
            let a = if i < k {
                i
            } else {
                i + 1
            };
            assert(n.lru[i] == p.lru[a]);
            if j < n.lru.len() - 1 {
                let b = if j < k {
                    j
                } else {
                    j + 1
                };
                assert(n.lru[j] == p.lru[b]);
            } else {
                assert(p.lru[k] == s);
                if a < k {
                    assert(p.lru[a] != p.lru[k]);
                } else {
                    assert(p.lru[k] != p.lru[a]);
                }
            }
        }
        assert forall|i: int, j: int| 0 <= i < n.free.len() && 0 <= j < n.lru.len() implies #[trigger] n.free[i]
            != #[trigger] n.lru[j] by {
            if j < n.lru.len() - 1 {
                let b = if j < k {
                    j
                } else {
                    j + 1
                };
                assert(n.lru[j] == p.lru[b]);
            } else {
                assert(p.lru[k] == s);
                assert(p.free[i] != p.lru[k]);
            }
        }
    }
}

/// The least recently used page leaves first: a page that was used last stays when another
/// one comes in, if there is more than one slot.
pub proof fn used_pages_stay(p: Slots, h: u128, other: u128)
    requires
        slots_ok(p),
        p.by_hash.contains_key(h),
        p.hash.len() > 1,
    ensures
        pushed(used(p, h), other).by_hash.contains_key(h),
{
    using_keeps_books(p, h);
    let q = used(p, h);
    if !q.by_hash.contains_key(other) && q.free.len() == 0 {
        lemma_place(p.lru, q.by_hash[h]);
        assert(q.lru[q.lru.len() - 1] == q.by_hash[h]);
        assert(q.lru[0] != q.lru[q.lru.len() - 1]);
        assert(q.hash[q.lru[0] as int] != Some(h));
    }
}

/// A page that is not in the tier gets a slot of its own. While a slot is free, no page goes for it;
/// else the one that was used longest ago goes, and no other.
pub proof fn the_page_unused_longest_goes(p: Slots, h: u128, other: u128)
    requires
        slots_ok(p),
        !p.by_hash.contains_key(h),
        other != h,
    ensures
        pushed(p, h).by_hash.contains_key(h),
        pushed(p, h).lru.last() == pushed(p, h).by_hash[h],
        p.by_hash.contains_key(other) && (p.free.len() > 0 || p.by_hash[other] != p.lru[0]) ==> pushed(
            p,
            h,
        ).by_hash.contains_key(other) && pushed(p, h).by_hash[other] == p.by_hash[other] && pushed(p, h).by_hash[other]
            != pushed(p, h).by_hash[h],
        p.free.len() == 0 && p.by_hash.contains_key(other) && p.by_hash[other] == p.lru[0] ==> !pushed(
            p,
            h,
        ).by_hash.contains_key(other),
{
    let (q, s) = freed(p);
    if p.free.len() > 0 {
        assert(p.free[p.free.len() - 1] == s);
        assert(p.hash[s as int] is None);
    } else {
        assert(p.lru[0] == s);
    }
    if p.by_hash.contains_key(other) {
        assert(p.hash[p.by_hash[other] as int] == Some(other));
    }
}

/// The host-memory tier.
pub struct CpuPageCache {
    slot_hash: Vec<Option<u128>>,
    map: HashMap<u128, usize>,
    lru: VecDeque<usize>,
    free: Vec<usize>,
    restored_pages: u64,
    pushed_pages: u64,
}

impl CpuPageCache {
    /// The state.
    pub closed spec fn slots(&self) -> Slots {
        Slots { hash: self.slot_hash@, by_hash: self.map@, lru: self.lru@, free: self.free@ }
    }

    /// Pages that came back, and pages that came in.
    pub closed spec fn counts(&self) -> (u64, u64) {
        (self.restored_pages, self.pushed_pages)
    }

    /// A tier for `max_tokens` tokens, in whole pages, at least one.
    pub fn new(max_tokens: i64) -> (r: CpuPageCache)
        requires
            max_tokens <= i64::MAX - 255,
            page_count(max_tokens as int) <= usize::MAX,
        ensures
            slots_ok(r.slots()),
            r.counts() == (0u64, 0u64),
            r.slots() == new_slots(max_tokens as int),
    {
        let pages: i64 = pages_for(max_tokens);
        let n: usize = if pages >= 1 {
            pages as usize
        } else {
            1
        };
        let mut slot_hash: Vec<Option<u128>> = Vec::new();
        let mut free: Vec<usize> = Vec::new();
        let mut i: usize = 0;
        while i < n
            invariant
                i <= n,
                slot_hash@ == Seq::new(i as nat, |j: int| None::<u128>),
                free@ == Seq::new(i as nat, |j: int| (n - 1 - j) as usize),
            decreases n - i,
        {
            slot_hash.push(None);
            free.push(n - 1 - i);
            i = i + 1;
            assert(slot_hash@ =~= Seq::new(i as nat, |j: int| None::<u128>));
            assert(free@ =~= Seq::new(i as nat, |j: int| (n - 1 - j) as usize));
        }
        CpuPageCache {
            slot_hash,
            map: HashMap::new(),
            lru: VecDeque::new(),
            free,
            restored_pages: 0,
            pushed_pages: 0,
        }
    }

    /// Pages that came back, and pages that came in.
    pub fn stats(&self) -> (r: (u64, u64))
        ensures
            r == self.counts(),
    {
        (self.restored_pages, self.pushed_pages)
    }

    fn take_slot(&mut self) -> (r: usize)
        requires
            slots_ok(old(self).slots()),
        ensures
            (final(self).slots(), r) == freed(old(self).slots()),
            final(self).counts() == old(self).counts(),
            r < old(self).slots().hash.len(),
    {
        let ghost p = self.slots();
        match self.free.pop() {
            Some(s) => {
                assert(p.free[p.free.len() - 1] == s);
                assert(self.slots() =~= freed(p).0);
                s
            },
            None => {
                assert(p.free.len() == 0);
                let front = self.lru.pop_front();
                let s: usize = match front {
                    Some(x) => x,
                    None => 0,
                };
                assert(p.lru[0] == s);
                match self.slot_hash[s] {
                    Some(h) => {
                        self.map.remove(&h);
                    },
                    None => {},
                }
                self.slot_hash.set(s, None);
                assert(self.lru@ =~= p.lru.drop_first());
                assert(self.slots() =~= freed(p).0);
                s
            },
        }
    }

    /// Bring a page in under `h`. Returns the slot to which its content is copied, or `None`
    /// where the hash has one.
    pub fn push(&mut self, h: PageHash) -> (r: Option<usize>)
        requires
            slots_ok(old(self).slots()),
            old(self).counts().1 < u64::MAX,
        ensures
            slots_ok(final(self).slots()),
            final(self).slots() == pushed(old(self).slots(), key_of(h)),
            match r {
                Some(s) => !old(self).slots().by_hash.contains_key(key_of(h)) && s == freed(old(self).slots()).1
                    && final(self).counts() == (old(self).counts().0, (old(self).counts().1 + 1) as u64),
                None => old(self).slots().by_hash.contains_key(key_of(h)) && final(self).counts()
                    == old(self).counts(),
            },
    {
        let ghost p = self.slots();
        proof {
            pushing_keeps_books(p, key_of(h));
        }
        let key = u128_from_le_bytes(h.as_slice());
        assert(key == key_of(h));
        if self.map.contains_key(&key) {
            return None;
        }
        let s = self.take_slot();
        self.slot_hash.set(s, Some(key));
        self.map.insert(key, s);
        self.lru.push_back(s);
        self.pushed_pages = self.pushed_pages + 1;
        assert(self.slots() =~= pushed(p, key));
        Some(s)
    }

    /// Use the page under `h`. Returns the slot from which its content is copied, or `None`
    /// where the tier has no such page.
    pub fn restore(&mut self, h: &PageHash) -> (r: Option<usize>)
        requires
            slots_ok(old(self).slots()),
            old(self).counts().0 < u64::MAX,
        ensures
            slots_ok(final(self).slots()),
            final(self).slots() == used(old(self).slots(), key_of(*h)),
            match r {
                Some(s) => old(self).slots().by_hash.contains_key(key_of(*h)) && s == old(self).slots().by_hash[key_of(
                    *h,
                )] && final(self).counts() == ((old(self).counts().0 + 1) as u64, old(self).counts().1),
                None => !old(self).slots().by_hash.contains_key(key_of(*h)) && final(self).counts()
                    == old(self).counts(),
            },
    {
        let ghost p = self.slots();
        proof {
            using_keeps_books(p, key_of(*h));
        }
        let key = u128_from_le_bytes(h.as_slice());
        assert(key == key_of(*h));
        let s: usize = match self.map.get(&key) {
            Some(x) => *x,
            None => {
                return None;
            },
        };
        proof {
            lemma_place(p.lru, s);
        }
        let ghost k = place_of(p.lru, s);
        let mut i: usize = 0;
        while i < self.lru.len()
            invariant_except_break
                i <= self.lru@.len(),
                self.lru@ == p.lru,
                self.slots() == p,
                i <= k,
                k == place_of(p.lru, s),
                0 <= k <= p.lru.len(),
                k < p.lru.len() ==> p.lru[k] == s,
                forall|j: int| 0 <= j < k ==> p.lru[j] != s,
            invariant
                self.counts() == old(self).counts(),
            ensures
                self.slots() == (Slots {
                    lru: if k < p.lru.len() {
                        p.lru.remove(k)
                    } else {
                        p.lru
                    },
                    ..p
                }),
            decreases self.lru@.len() - i,
        {
            if self.lru[i] == s {
                self.lru.remove(i);
                assert(self.lru@ =~= p.lru.remove(k));
                assert(self.slots() =~= (Slots { lru: p.lru.remove(k), ..p }));
                break;
            }
            i = i + 1;
        }
        self.lru.push_back(s);
        self.restored_pages = self.restored_pages + 1;
        assert(self.slots() =~= used(p, key));
        Some(s)
    }
}

} // verus!
