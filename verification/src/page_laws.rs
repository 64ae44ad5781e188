//! What every use of the page table keeps.
use crate::paged;
use crate::paged::Pages;
use vstd::prelude::*;

verus! {

/// Whether a page number stands in a list.
pub open spec fn listed(s: Seq<i32>, id: int) -> bool {
    exists|i: int| 0 <= i < s.len() && #[trigger] s[i] == id
}

/// No page number stands in a list twice.
pub open spec fn distinct(s: Seq<i32>) -> bool {
    forall|i: int, j: int| 0 <= i < j < s.len() ==> #[trigger] s[i] != #[trigger] s[j]
}

/// How often a page stands in a list.
pub open spec fn times(ids: Seq<i32>, id: int) -> int
    decreases ids.len(),
{
    if ids.len() == 0 {
        0
    } else {
        times(ids.drop_last(), id) + if ids.last() == id {
            1int
        } else {
            0int
        }
    }
}

pub proof fn lemma_times(ids: Seq<i32>, id: int)
    ensures
        0 <= times(ids, id) <= ids.len(),
        times(ids, id) > 0 <==> listed(ids, id),
        distinct(ids) ==> times(ids, id) <= 1,
    decreases ids.len(),
{
    if ids.len() > 0 {
        let t = ids.drop_last();
        lemma_times(t, id);
        if listed(t, id) {
            let i = choose|i: int| 0 <= i < t.len() && #[trigger] t[i] == id;
            assert(ids[i] == id);
        }
        if listed(ids, id) {
            let i = choose|i: int| 0 <= i < ids.len() && #[trigger] ids[i] == id;
            if i < t.len() {
                assert(t[i] == id);
            }
        }
        if ids.last() == id {
            assert(ids[ids.len() - 1] == id);
        }
        if distinct(ids) {
            assert forall|i: int, j: int| 0 <= i < j < t.len() implies #[trigger] t[i] != #[trigger] t[j] by {
                assert(t[i] == ids[i] && t[j] == ids[j]);
            }
            if ids.last() == id && listed(t, id) {
                let i = choose|i: int| 0 <= i < t.len() && #[trigger] t[i] == id;
                assert(ids[i] != ids[ids.len() - 1]);
            }
        }
    }
}

pub proof fn lemma_times_concat(a: Seq<i32>, b: Seq<i32>, id: int)
    ensures
        times(a + b, id) == times(a, id) + times(b, id),
    decreases b.len(),
{
    if b.len() == 0 {
        assert(a + b =~= a);
    } else {
        assert((a + b).drop_last() =~= a + b.drop_last());
        lemma_times_concat(a, b.drop_last(), id);
    }
}

/// The state of a table whose pages are counted as they should be: exactly the unreferenced
/// pages can be handed out, each once; the hashed ones of them are reclaimable, the others free.
pub open spec fn counted(p: Pages) -> bool {
    &&& paged::ranged(p)
    &&& distinct(p.free)
    &&& distinct(p.reclaimable)
    &&& forall|id: int|
        0 <= id < p.rc.len() ==> (#[trigger] p.rc[id] == 0 <==> listed(p.free, id) || listed(p.reclaimable, id))
    &&& forall|i: int| 0 <= i < p.free.len() ==> p.hash[#[trigger] p.free[i] as int] is None
    &&& forall|i: int| 0 <= i < p.reclaimable.len() ==> p.hash[#[trigger] p.reclaimable[i] as int] is Some
}

/// The state of a table whose pages are used as they should be: they are counted as they should
/// be, and the page found under a hash has that hash.
pub open spec fn sound(p: Pages) -> bool {
    &&& counted(p)
    &&& forall|h: u128| #[trigger] p.by_hash.contains_key(h) ==> p.hash[p.by_hash[h] as int] == Some(h)
}

/// The pages that have a reference.
pub open spec fn used_pages(p: Pages) -> Set<int> {
    vstd::set_lib::set_int_range(0, p.rc.len() as int).filter(|id: int| p.rc[id] > 0)
}

/// The pages that could be handed out and those that are in use are all the pages.
pub proof fn spare_and_used_pages_are_all(p: Pages)
    requires
        counted(p),
    ensures
        paged::spare(p) + used_pages(p).len() == p.rc.len(),
{
    let all = p.free + p.reclaimable;
    let f = p.free.len();
    assert forall|i: int, j: int| 0 <= i < j < all.len() implies #[trigger] all[i] != #[trigger] all[j] by {
        if i < f && j >= f {
            assert(p.hash[p.free[i] as int] is None);
            assert(p.hash[p.reclaimable[j - f] as int] is Some);
        } else if j < f {
            assert(p.free[i] != p.free[j]);
        } else {
            assert(p.reclaimable[i - f] != p.reclaimable[j - f]);
        }
    }
    let ids = all.map_values(|x: i32| x as int);
    assert(ids.no_duplicates());
    ids.unique_seq_to_set();
    let every = vstd::set_lib::set_int_range(0, p.rc.len() as int);
    vstd::set_lib::lemma_int_range(0, p.rc.len() as int);
    let used = used_pages(p);
    assert(ids.to_set() =~= every.difference(used)) by {
        assert forall|x: int| every.contains(x) && !used.contains(x) implies ids.contains(x) by {
            assert(p.rc[x] == 0);
            if listed(p.free, x) {
                let i = choose|i: int| 0 <= i < p.free.len() && #[trigger] p.free[i] == x;
                assert(ids[i] == x);
            } else {
                let i = choose|i: int| 0 <= i < p.reclaimable.len() && #[trigger] p.reclaimable[i] == x;
                assert(ids[f + i] == x);
            }
        }
        assert forall|x: int| ids.contains(x) implies every.contains(x) && !used.contains(x) by {
            let i = choose|i: int| 0 <= i < ids.len() && ids[i] == x;
            if i < f {
                assert(0 <= p.free[i] < p.rc.len());
                assert(listed(p.free, x));
            } else {
                assert(0 <= p.reclaimable[i - f] < p.rc.len());
                assert(listed(p.reclaimable, x));
            }
            assert(p.rc[x] == 0);
        }
    }
    assert(every =~= used.union(every.difference(used)));
    vstd::set_lib::lemma_set_disjoint_lens(used, every.difference(used));
}

/// A new table is sound.
pub proof fn new_table_is_sound(n: nat)
    requires
        n <= i32::MAX,
    ensures
        sound(paged::new_pages(n)),
{
    let free = Seq::new(n, |i: int| (n - 1 - i) as i32);
    assert forall|id: int| 0 <= id < n implies #[trigger] listed(free, id) by {
        assert(free[n - 1 - id] == id);
    }
}

/// Taking a page keeps the count of a table. The page was unreferenced, is referenced once
/// afterwards, has no hash then, and the other pages keep their counts and hashes.
pub proof fn taking_keeps_count(p: Pages)
    requires
        counted(p),
        paged::spare(p) > 0,
    ensures
        counted(paged::taken(p).0),
        paged::spare(paged::taken(p).0) == paged::spare(p) - 1,
        0 <= paged::taken(p).1 < p.rc.len(),
        p.rc[paged::taken(p).1 as int] == 0,
        paged::taken(p).0.rc == p.rc.update(paged::taken(p).1 as int, 1),
        paged::taken(p).0.hash == p.hash.update(paged::taken(p).1 as int, None),
{
    let (q, id) = paged::taken(p);
    if p.free.len() > 0 {
        assert(p.free[p.free.len() - 1] == id);
        assert(listed(p.free, id as int));
        assert forall|x: int| 0 <= x < q.rc.len() implies (#[trigger] q.rc[x] == 0 <==> listed(q.free, x) || listed(
            q.reclaimable,
            x,
        )) by {
            assert(p.rc[x] == 0 <==> listed(p.free, x) || listed(p.reclaimable, x));
            if listed(p.free, x) && x != id {
                let i = choose|i: int| 0 <= i < p.free.len() && #[trigger] p.free[i] == x;
                assert(q.free[i] == x);
            }
            if listed(q.free, x) {
                let i = choose|i: int| 0 <= i < q.free.len() && #[trigger] q.free[i] == x;
                assert(p.free[i] == x);
            }
            if x == id && listed(p.reclaimable, x) {
                let i = choose|i: int| 0 <= i < p.reclaimable.len() && #[trigger] p.reclaimable[i] == x;
                assert(p.hash[p.reclaimable[i] as int] is Some);
            }
        }
        assert forall|i: int| 0 <= i < q.free.len() implies q.hash[#[trigger] q.free[i] as int] is None by {
            assert(q.free[i] == p.free[i]);
        }
        assert forall|i: int| 0 <= i < q.reclaimable.len() implies q.hash[#[trigger] q.reclaimable[i] as int] is Some by {
            assert(p.hash[p.reclaimable[i] as int] is Some);
        }
        assert forall|i: int| 0 <= i < q.free.len() implies 0 <= #[trigger] q.free[i] < q.rc.len() by {
            assert(q.free[i] == p.free[i]);
        }
    } else {
        assert(p.reclaimable[0] == id);
        assert(listed(p.reclaimable, id as int));
        assert forall|i: int| 0 <= i < q.reclaimable.len() implies #[trigger] q.reclaimable[i] == p.reclaimable[i
            + 1] by {}
        assert forall|x: int| 0 <= x < q.rc.len() implies (#[trigger] q.rc[x] == 0 <==> listed(q.free, x) || listed(
            q.reclaimable,
            x,
        )) by {
            assert(p.rc[x] == 0 <==> listed(p.free, x) || listed(p.reclaimable, x));
            if listed(p.reclaimable, x) && x != id {
                let i = choose|i: int| 0 <= i < p.reclaimable.len() && #[trigger] p.reclaimable[i] == x;
                assert(q.reclaimable[i - 1] == x);
            }
            if listed(q.reclaimable, x) {
                let i = choose|i: int| 0 <= i < q.reclaimable.len() && #[trigger] q.reclaimable[i] == x;
                assert(p.reclaimable[i + 1] == x);
            }
        }
        assert forall|k: u128| #[trigger] q.by_hash.contains_key(k) implies 0 <= q.by_hash[k] < q.rc.len() by {
            assert(p.by_hash.contains_key(k));
        }
    }
}

/// Taking a page keeps a table sound. The page was unreferenced, is referenced once
/// afterwards, has no hash then, and the other pages keep their counts and hashes.
pub proof fn taking_keeps_sound(p: Pages)
    requires
        sound(p),
        paged::spare(p) > 0,
    ensures
        sound(paged::taken(p).0),
        paged::spare(paged::taken(p).0) == paged::spare(p) - 1,
        0 <= paged::taken(p).1 < p.rc.len(),
        p.rc[paged::taken(p).1 as int] == 0,
        paged::taken(p).0.rc == p.rc.update(paged::taken(p).1 as int, 1),
        paged::taken(p).0.hash == p.hash.update(paged::taken(p).1 as int, None),
{
    taking_keeps_count(p);
    let (q, id) = paged::taken(p);
    if p.free.len() > 0 {
        assert(p.hash[p.free[p.free.len() - 1] as int] is None);
    } else {
        assert(p.reclaimable[0] == id);
    }
    assert forall|k: u128| #[trigger] q.by_hash.contains_key(k) implies q.hash[q.by_hash[k] as int] == Some(k) by {
        assert(p.by_hash.contains_key(k));
    }
}

/// Taking pages keeps the count of a table; the pages are different ones that were unreferenced,
/// and each is referenced once and has no hash afterwards.
pub proof fn taking_many_keeps_count(p: Pages, n: nat)
    requires
        counted(p),
        n <= paged::spare(p),
    ensures
        counted(paged::taken_n(p, n).0),
        paged::spare(paged::taken_n(p, n).0) == paged::spare(p) - n,
        paged::taken_n(p, n).1.len() == n,
        paged::taken_n(p, n).0.rc.len() == p.rc.len(),
        distinct(paged::taken_n(p, n).1),
        forall|i: int|
            0 <= i < n ==> {
                let id = #[trigger] paged::taken_n(p, n).1[i];
                &&& 0 <= id < p.rc.len()
                &&& p.rc[id as int] == 0
                &&& paged::taken_n(p, n).0.rc[id as int] == 1
                &&& paged::taken_n(p, n).0.hash[id as int] is None
            },
        forall|id: int|
            0 <= id < p.rc.len() && !listed(paged::taken_n(p, n).1, id) ==> #[trigger] paged::taken_n(p, n).0.rc[id]
                == p.rc[id] && paged::taken_n(p, n).0.hash[id] == p.hash[id],
    decreases n,
{
    if n > 0 {
        let m = (n - 1) as nat;
        taking_many_keeps_count(p, m);
        let (q, ids) = paged::taken_n(p, m);
        taking_keeps_count(q);
        let (r, id) = paged::taken(q);
        let all = ids.push(id);
        assert(paged::taken_n(p, n) == (r, all));
        if listed(ids, id as int) {
            let i = choose|i: int| 0 <= i < ids.len() && #[trigger] ids[i] == id;
            assert(q.rc[ids[i] as int] == 1);
        }
        assert(p.rc[id as int] == 0);
        assert forall|i: int| 0 <= i < n implies {
            let x = #[trigger] all[i];
            &&& 0 <= x < p.rc.len()
            &&& p.rc[x as int] == 0
            &&& r.rc[x as int] == 1
            &&& r.hash[x as int] is None
        } by {
            if i < m {
                assert(all[i] == ids[i]);
                assert(listed(ids, ids[i] as int));
            }
        }
        assert forall|i: int, j: int| 0 <= i < j < all.len() implies #[trigger] all[i] != #[trigger] all[j] by {
            assert(all[i] == ids[i]);
            assert(listed(ids, ids[i] as int));
            if j < m {
                assert(all[j] == ids[j]);
            }
        }
        assert forall|x: int| 0 <= x < p.rc.len() && !listed(all, x) implies #[trigger] r.rc[x] == p.rc[x] && r.hash[x]
            == p.hash[x] by {
            assert(all[m as int] == id);
            if listed(ids, x) {
                let i = choose|i: int| 0 <= i < ids.len() && #[trigger] ids[i] == x;
                assert(all[i] == x);
            }
            assert(q.rc[x] == p.rc[x]);
        }
    }
}

/// Taking pages keeps a table sound; the pages are different ones that were unreferenced,
/// and each is referenced once and has no hash afterwards.
pub proof fn taking_many_keeps_sound(p: Pages, n: nat)
    requires
        sound(p),
        n <= paged::spare(p),
    ensures
        sound(paged::taken_n(p, n).0),
        paged::spare(paged::taken_n(p, n).0) == paged::spare(p) - n,
        paged::taken_n(p, n).1.len() == n,
        paged::taken_n(p, n).0.rc.len() == p.rc.len(),
        distinct(paged::taken_n(p, n).1),
        forall|i: int|
            0 <= i < n ==> {
                let id = #[trigger] paged::taken_n(p, n).1[i];
                &&& 0 <= id < p.rc.len()
                &&& p.rc[id as int] == 0
                &&& paged::taken_n(p, n).0.rc[id as int] == 1
                &&& paged::taken_n(p, n).0.hash[id as int] is None
            },
        forall|id: int|
            0 <= id < p.rc.len() && !listed(paged::taken_n(p, n).1, id) ==> #[trigger] paged::taken_n(p, n).0.rc[id]
                == p.rc[id] && paged::taken_n(p, n).0.hash[id] == p.hash[id],
    decreases n,
{
    taking_many_keeps_count(p, n);
    if n > 0 {
        taking_many_keeps_sound(p, (n - 1) as nat);
        taking_keeps_sound(paged::taken_n(p, (n - 1) as nat).0);
    }
}

proof fn lemma_place(s: Seq<i32>, x: i32)
    ensures
        0 <= paged::place_of(s, x) <= s.len(),
        paged::place_of(s, x) < s.len() ==> s[paged::place_of(s, x)] == x,
        paged::place_of(s, x) < s.len() <==> listed(s, x as int),
    decreases s.len(),
{
    if s.len() > 0 {
        let t = s.drop_last();
        lemma_place(t, x);
        if listed(s, x as int) {
            let i = choose|i: int| 0 <= i < s.len() && #[trigger] s[i] == x;
            if i < t.len() {
                assert(t[i] == x);
            }
        }
        if listed(t, x as int) {
            let i = choose|i: int| 0 <= i < t.len() && #[trigger] t[i] == x;
            assert(s[i] == x);
        }
        if s.last() == x {
            assert(s[s.len() - 1] == x);
        }
    }
}

/// One more reference to a page that is in use, or hashed, keeps the count of a table.
pub proof fn sharing_keeps_count(p: Pages, id: i32)
    requires
        counted(p),
        0 <= id < p.rc.len(),
        p.rc[id as int] < u32::MAX,
        p.rc[id as int] == 0 ==> p.hash[id as int] is Some,
    ensures
        counted(paged::acquired(p, id)),
        paged::acquired(p, id).rc == p.rc.update(id as int, (p.rc[id as int] + 1) as u32),
        paged::acquired(p, id).hash == p.hash,
        paged::acquired(p, id).by_hash == p.by_hash,
        paged::spare(paged::acquired(p, id)) == paged::spare(p) - if p.rc[id as int] == 0 {
            1int
        } else {
            0int
        },
{
    let q = paged::acquired(p, id);
    lemma_place(p.reclaimable, id);
    let k = paged::place_of(p.reclaimable, id);
    if p.rc[id as int] == 0 && listed(p.free, id as int) {
        let i = choose|i: int| 0 <= i < p.free.len() && #[trigger] p.free[i] == id;
        assert(p.hash[p.free[i] as int] is None);
    }
    if p.rc[id as int] == 0 {
        assert(listed(p.reclaimable, id as int));
        assert(q.reclaimable == p.reclaimable.remove(k));
        assert forall|i: int| 0 <= i < q.reclaimable.len() implies #[trigger] q.reclaimable[i] == p.reclaimable[if i
            < k {
            i
        } else {
            i + 1
        }] by {}
    }
    assert forall|x: int| 0 <= x < q.rc.len() implies (#[trigger] q.rc[x] == 0 <==> listed(q.free, x) || listed(
        q.reclaimable,
        x,
    )) by {
        assert(p.rc[x] == 0 <==> listed(p.free, x) || listed(p.reclaimable, x));
        if p.rc[id as int] == 0 {
            if listed(q.reclaimable, x) {
                let i = choose|i: int| 0 <= i < q.reclaimable.len() && #[trigger] q.reclaimable[i] == x;
                let j = if i < k {
                    i
                } else {
                    i + 1
                };
                assert(p.reclaimable[j] == x);
                assert(p.reclaimable[k] == id);
                assert(x != id);
            }
            if listed(p.reclaimable, x) && x != id {
                let i = choose|i: int| 0 <= i < p.reclaimable.len() && #[trigger] p.reclaimable[i] == x;
                if i < k {
                    assert(q.reclaimable[i] == x);
                } else {
                    assert(q.reclaimable[i - 1] == x);
                }
            }
        } else {
            assert(q.reclaimable == p.reclaimable);
        }
    }
    assert forall|i: int| 0 <= i < q.free.len() implies q.hash[#[trigger] q.free[i] as int] is None by {
        assert(p.hash[p.free[i] as int] is None);
    }
}

/// One more reference to a hashed page keeps a table sound.
pub proof fn sharing_keeps_sound(p: Pages, id: i32)
    requires
        sound(p),
        0 <= id < p.rc.len(),
        p.rc[id as int] < u32::MAX,
        p.hash[id as int] is Some,
    ensures
        sound(paged::acquired(p, id)),
        paged::acquired(p, id).rc == p.rc.update(id as int, (p.rc[id as int] + 1) as u32),
        paged::acquired(p, id).hash == p.hash,
        paged::acquired(p, id).by_hash == p.by_hash,
        paged::spare(paged::acquired(p, id)) == paged::spare(p) - if p.rc[id as int] == 0 {
            1int
        } else {
            0int
        },
{
    sharing_keeps_count(p, id);
}

/// Giving back one reference to a referenced page keeps the count of a table, and the page can be
/// handed out again exactly when it was the last.
pub proof fn releasing_keeps_count(p: Pages, id: i32)
    requires
        counted(p),
        0 <= id < p.rc.len(),
        p.rc[id as int] > 0,
    ensures
        counted(paged::released_one(p, id)),
        paged::released_one(p, id).rc == p.rc.update(id as int, (p.rc[id as int] - 1) as u32),
        paged::released_one(p, id).hash == p.hash,
        paged::released_one(p, id).by_hash == p.by_hash,
        paged::spare(paged::released_one(p, id)) == paged::spare(p) + if p.rc[id as int] == 1 {
            1int
        } else {
            0int
        },
{
    let q = paged::released_one(p, id);
    assert(!listed(p.free, id as int) && !listed(p.reclaimable, id as int));
    let last = p.rc[id as int] == 1;
    assert forall|x: int| 0 <= x < q.rc.len() implies (#[trigger] q.rc[x] == 0 <==> listed(q.free, x) || listed(
        q.reclaimable,
        x,
    )) by {
        assert(p.rc[x] == 0 <==> listed(p.free, x) || listed(p.reclaimable, x));
        if listed(p.free, x) {
            let i = choose|i: int| 0 <= i < p.free.len() && #[trigger] p.free[i] == x;
            assert(q.free[i] == x);
        }
        if listed(p.reclaimable, x) {
            let i = choose|i: int| 0 <= i < p.reclaimable.len() && #[trigger] p.reclaimable[i] == x;
            assert(q.reclaimable[i] == x);
        }
        if last && x == id {
            if p.hash[id as int] is Some {
                assert(q.reclaimable[p.reclaimable.len() as int] == x);
            } else {
                assert(q.free[p.free.len() as int] == x);
            }
        }
        if listed(q.free, x) && x != id {
            let i = choose|i: int| 0 <= i < q.free.len() && #[trigger] q.free[i] == x;
            assert(p.free[i] == x);
        }
        if listed(q.reclaimable, x) && x != id {
            let i = choose|i: int| 0 <= i < q.reclaimable.len() && #[trigger] q.reclaimable[i] == x;
            assert(p.reclaimable[i] == x);
        }
        if x == id && !last {
            if listed(q.free, x) {
                assert(q.free == p.free);
            }
            if listed(q.reclaimable, x) {
                assert(q.reclaimable == p.reclaimable);
            }
        }
    }
    assert forall|i: int, j: int| 0 <= i < j < q.free.len() implies #[trigger] q.free[i] != #[trigger] q.free[j] by {
        assert(q.free[i] == p.free[i]);
        assert(listed(p.free, p.free[i] as int));
        if j < p.free.len() {
            assert(q.free[j] == p.free[j]);
        }
    }
    assert forall|i: int, j: int| 0 <= i < j < q.reclaimable.len() implies #[trigger] q.reclaimable[i]
        != #[trigger] q.reclaimable[j] by {
        assert(q.reclaimable[i] == p.reclaimable[i]);
        assert(listed(p.reclaimable, p.reclaimable[i] as int));
        if j < p.reclaimable.len() {
            assert(q.reclaimable[j] == p.reclaimable[j]);
        }
    }
    assert forall|i: int| 0 <= i < q.free.len() implies 0 <= #[trigger] q.free[i] < q.rc.len() && q.hash[q.free[i] as int] is None by {
        if i < p.free.len() {
            assert(q.free[i] == p.free[i]);
        }
    }
    assert forall|i: int| 0 <= i < q.reclaimable.len() implies 0 <= #[trigger] q.reclaimable[i] < q.rc.len()
        && q.hash[q.reclaimable[i] as int] is Some by {
        if i < p.reclaimable.len() {
            assert(q.reclaimable[i] == p.reclaimable[i]);
        }
    }
}

/// Giving back one reference to a referenced page keeps a table sound, and the page can be
/// handed out again exactly when it was the last.
pub proof fn releasing_keeps_sound(p: Pages, id: i32)
    requires
        sound(p),
        0 <= id < p.rc.len(),
        p.rc[id as int] > 0,
    ensures
        sound(paged::released_one(p, id)),
        paged::released_one(p, id).rc == p.rc.update(id as int, (p.rc[id as int] - 1) as u32),
        paged::released_one(p, id).hash == p.hash,
        paged::released_one(p, id).by_hash == p.by_hash,
        paged::spare(paged::released_one(p, id)) == paged::spare(p) + if p.rc[id as int] == 1 {
            1int
        } else {
            0int
        },
{
    releasing_keeps_count(p, id);
}

/// Giving a referenced page a hash, its first or another one, keeps the count of a table: the same
/// pages can be handed out.
pub proof fn hashing_keeps_count(p: Pages, id: i32, h: u128)
    requires
        counted(p),
        0 <= id < p.rc.len(),
        p.rc[id as int] > 0,
    ensures
        counted(paged::hashed(p, id, h)),
        paged::spare(paged::hashed(p, id, h)) == paged::spare(p),
        paged::hashed(p, id, h).rc == p.rc,
{
    let q = paged::hashed(p, id, h);
    assert(!listed(p.free, id as int));
    assert forall|i: int| 0 <= i < q.free.len() implies q.hash[#[trigger] q.free[i] as int] is None by {
        assert(listed(p.free, p.free[i] as int));
        assert(p.hash[p.free[i] as int] is None);
    }
    assert forall|i: int| 0 <= i < q.reclaimable.len() implies q.hash[#[trigger] q.reclaimable[i] as int] is Some by {
        assert(p.hash[p.reclaimable[i] as int] is Some);
    }
    assert forall|x: int| 0 <= x < q.rc.len() implies (#[trigger] q.rc[x] == 0 <==> listed(q.free, x) || listed(
        q.reclaimable,
        x,
    )) by {
        assert(p.rc[x] == 0 <==> listed(p.free, x) || listed(p.reclaimable, x));
    }
    assert forall|k: u128| #[trigger] q.by_hash.contains_key(k) implies 0 <= q.by_hash[k] < q.rc.len() by {
        if p.by_hash.contains_key(k) {
            assert(0 <= p.by_hash[k] < p.rc.len());
        }
    }
}

/// Giving a referenced page a hash keeps a table sound, and a page can be found under that hash.
/// Where the page has another hash, it must not be the one that is found under that.
pub proof fn hashing_keeps_sound(p: Pages, id: i32, h: u128)
    requires
        sound(p),
        0 <= id < p.rc.len(),
        p.rc[id as int] > 0,
        p.hash[id as int] matches Some(o) ==> o == h || !(p.by_hash.contains_key(o) && p.by_hash[o] == id),
    ensures
        sound(paged::hashed(p, id, h)),
        paged::hashed(p, id, h).by_hash.contains_key(h),
        forall|k: u128|
            #[trigger] p.by_hash.contains_key(k) ==> paged::hashed(p, id, h).by_hash.contains_key(k)
                && paged::hashed(p, id, h).by_hash[k] == p.by_hash[k],
{
    hashing_keeps_count(p, id, h);
    let q = paged::hashed(p, id, h);
    assert forall|k: u128| #[trigger] q.by_hash.contains_key(k) implies q.hash[q.by_hash[k] as int] == Some(k) by {
        if p.by_hash.contains_key(k) {
            assert(p.hash[p.by_hash[k] as int] == Some(k));
        }
    }
}

/// A request that fits in the pages that could be handed out can always be met, however
/// many of its pages are shared.
pub proof fn free_pages_are_enough(p: Pages, tokens: Seq<i64>, reserve: int)
    requires
        paged::ranged(p),
        reserve >= 0,
        paged::page_count(tokens.len() + reserve) <= paged::spare(p),
        forall|i: int| 0 <= i < p.rc.len() ==> #[trigger] p.rc[i] + paged::hits(p, tokens).len() <= u32::MAX,
    ensures
        paged::can_share(p, tokens, reserve),
{
    paged::lemma_hit_count(p, tokens, 0);
    let shared = paged::hits(p, tokens);
    assert forall|i: int| 0 <= i < shared.len() implies 0 <= #[trigger] shared[i] < p.rc.len() by {
        assert(p.by_hash.contains_key(paged::prefix_key(tokens, i)));
    }
    paged::lemma_acquired_all(p, shared, shared.len() as int);
}

/// In a sound table, the pages that a prompt shares hold the chained hashes of the prompt's
/// leading pages.
pub proof fn shared_pages_hold_the_prefix(p: Pages, tokens: Seq<i64>, k: int)
    requires
        sound(p),
        0 <= k < paged::hits(p, tokens).len(),
    ensures
        256 * (k + 1) <= tokens.len(),
        p.hash[paged::hits(p, tokens)[k] as int] == Some(paged::prefix_key(tokens, k)),
{
    paged::lemma_hit_count(p, tokens, 0);
    assert(p.by_hash.contains_key(paged::prefix_key(tokens, k)));
}

/// A prompt shares every leading page whose chained hash, and those of the pages before it,
/// are in the table.
pub proof fn known_prefixes_are_shared(p: Pages, tokens: Seq<i64>, n: int)
    requires
        0 <= n,
        256 * n <= tokens.len(),
        forall|k: int| 0 <= k < n ==> p.by_hash.contains_key(#[trigger] paged::prefix_key(tokens, k)),
    ensures
        paged::hits(p, tokens).len() >= n,
{
    lemma_hits_from(p, tokens, 0, n);
    paged::lemma_hit_count(p, tokens, 0);
}

proof fn lemma_hits_from(p: Pages, tokens: Seq<i64>, k: int, n: int)
    requires
        0 <= k <= n,
        256 * n <= tokens.len(),
        forall|j: int| 0 <= j < n ==> p.by_hash.contains_key(#[trigger] paged::prefix_key(tokens, j)),
    ensures
        paged::hit_count(p, tokens, k) >= n - k,
    decreases n - k,
{
    paged::lemma_hit_count(p, tokens, k);
    if k < n {
        lemma_hits_from(p, tokens, k + 1, n);
        assert(p.by_hash.contains_key(paged::prefix_key(tokens, k)));
    }
}

/// Sharing the pages of a prompt and taking the rest of a request keeps a table sound.
pub proof fn requests_keep_sound(p: Pages, tokens: Seq<i64>, reserve: int)
    requires
        sound(p),
        paged::can_share(p, tokens, reserve),
    ensures
        sound(
            paged::taken_n(
                paged::acquired_all(p, paged::hits(p, tokens)),
                (paged::page_count(tokens.len() + reserve) - paged::hits(p, tokens).len()) as nat,
            ).0,
        ),
{
    let shared = paged::hits(p, tokens);
    paged::lemma_hit_count(p, tokens, 0);
    assert forall|i: int| 0 <= i < shared.len() implies 0 <= #[trigger] shared[i] < p.rc.len() && p.hash[shared[i] as int] is Some by {
        shared_pages_hold_the_prefix(p, tokens, i);
    }
    lemma_sharing_all(p, shared, shared.len() as int);
    taking_many_keeps_sound(
        paged::acquired_all(p, shared),
        (paged::page_count(tokens.len() + reserve) - shared.len()) as nat,
    );
}

proof fn lemma_sharing_all(p: Pages, ids: Seq<i32>, most: int)
    requires
        sound(p),
        ids.len() <= most,
        forall|i: int|
            0 <= i < ids.len() ==> 0 <= #[trigger] ids[i] < p.rc.len() && p.hash[ids[i] as int] is Some,
        forall|i: int| 0 <= i < p.rc.len() ==> #[trigger] p.rc[i] + most <= u32::MAX,
    ensures
        sound(paged::acquired_all(p, ids)),
        paged::acquired_all(p, ids).hash == p.hash,
        paged::acquired_all(p, ids).rc.len() == p.rc.len(),
    decreases ids.len(),
{
    if ids.len() > 0 {
        let prev = ids.drop_last();
        assert forall|i: int| 0 <= i < prev.len() implies 0 <= #[trigger] prev[i] < p.rc.len() && p.hash[prev[i] as int] is Some by {
            assert(prev[i] == ids[i]);
        }
        lemma_sharing_all(p, prev, most);
        paged::lemma_acquired_all(p, prev, most);
        let id = ids[ids.len() - 1];
        assert(p.rc[id as int] + most <= u32::MAX);
        sharing_keeps_sound(paged::acquired_all(p, prev), id);
    }
}

/// Giving back fresh pages restores the number of pages that could be handed out.
pub proof fn released_pages_come_back(p: Pages, n: nat)
    requires
        sound(p),
        n <= paged::spare(p),
    ensures
        sound(paged::released(paged::taken_n(p, n).0, paged::taken_n(p, n).1)),
        paged::spare(paged::released(paged::taken_n(p, n).0, paged::taken_n(p, n).1)) == paged::spare(p),
{
    taking_many_keeps_sound(p, n);
    lemma_released(paged::taken_n(p, n).0, paged::taken_n(p, n).1);
}

proof fn lemma_released(p: Pages, ids: Seq<i32>)
    requires
        sound(p),
        distinct(ids),
        forall|i: int| 0 <= i < ids.len() ==> 0 <= #[trigger] ids[i] < p.rc.len() && p.rc[ids[i] as int] == 1,
    ensures
        sound(paged::released(p, ids)),
        paged::spare(paged::released(p, ids)) == paged::spare(p) + ids.len(),
        paged::released(p, ids).rc.len() == p.rc.len(),
        forall|x: int| 0 <= x < p.rc.len() && !listed(ids, x) ==> #[trigger] paged::released(p, ids).rc[x] == p.rc[x],
    decreases ids.len(),
{
    if ids.len() > 0 {
        let prev = ids.drop_last();
        let id = ids[ids.len() - 1];
        assert forall|i: int| 0 <= i < prev.len() implies 0 <= #[trigger] prev[i] < p.rc.len() && p.rc[prev[i] as int] == 1 by {
            assert(prev[i] == ids[i]);
        }
        assert(distinct(prev)) by {
            assert forall|i: int, j: int| 0 <= i < j < prev.len() implies #[trigger] prev[i] != #[trigger] prev[j] by {
                assert(prev[i] == ids[i] && prev[j] == ids[j]);
            }
        }
        lemma_released(p, prev);
        let q = paged::released(p, prev);
        if listed(prev, id as int) {
            let i = choose|i: int| 0 <= i < prev.len() && #[trigger] prev[i] == id;
            assert(ids[i] == id);
        }
        assert(q.rc[id as int] == p.rc[id as int]);
        releasing_keeps_sound(q, id);
        assert forall|x: int| 0 <= x < p.rc.len() && !listed(ids, x) implies #[trigger] paged::released(p, ids).rc[x]
            == p.rc[x] by {
            assert(x != id);
            if listed(prev, x) {
                let i = choose|i: int| 0 <= i < prev.len() && #[trigger] prev[i] == x;
                assert(ids[i] == x);
            }
            assert(q.rc[x] == p.rc[x]);
        }
    }
}

/// The pages after the first `k` pages of `tokens` were registered, each in its page of `block`.
pub open spec fn registered(p: Pages, block: Seq<i32>, tokens: Seq<i64>, k: nat) -> Pages
    decreases k,
{
    if k == 0 {
        p
    } else {
        paged::hashed(
            registered(p, block, tokens, (k - 1) as nat),
            block[k - 1],
            paged::prefix_key(tokens, k - 1),
        )
    }
}

/// Whether chained hashes tell the leading pages of `a` and `b` apart.
pub open spec fn keys_apart(a: Seq<i64>, b: Seq<i64>) -> bool {
    forall|i: int, j: int|
        #![trigger paged::prefix_key(a, i), paged::prefix_key(b, j)]
        0 <= i < a.len() as int / 256 && 0 <= j < b.len() as int / 256 && paged::prefix_key(a, i) == paged::prefix_key(
            b,
            j,
        ) ==> i == j && a.take(256 * (i + 1)) == b.take(256 * (j + 1))
}

/// Whether `k` is how many complete leading pages `a` and `b` have in common.
pub open spec fn common_pages(a: Seq<i64>, b: Seq<i64>, k: int) -> bool {
    &&& 0 <= k
    &&& 256 * k <= a.len()
    &&& 256 * k <= b.len()
    &&& a.take(256 * k) == b.take(256 * k)
    &&& 256 * (k + 1) <= a.len() && 256 * (k + 1) <= b.len() ==> a.take(256 * (k + 1)) != b.take(256 * (k + 1))
}

proof fn lemma_same_prefix(a: Seq<i64>, b: Seq<i64>, m: int)
    requires
        0 <= m,
        256 * m <= a.len(),
        256 * m <= b.len(),
        a.take(256 * m) == b.take(256 * m),
    ensures
        paged::prefix_bytes(a, m) == paged::prefix_bytes(b, m),
    decreases m,
{
    if m > 0 {
        assert forall|i: int| 0 <= i < 256 * m implies #[trigger] a[i] == b[i] by {
            let x = a.take(256 * m);
            let y = b.take(256 * m);
            assert(x == y);
            assert(x[i] == a[i]);
            assert(y[i] == b[i]);
        }
        assert(a.take(256 * (m - 1)) =~= b.take(256 * (m - 1)));
        lemma_same_prefix(a, b, m - 1);
        assert(paged::page_tokens(a, m - 1) =~= paged::page_tokens(b, m - 1));
    }
}

proof fn lemma_hits_exact(p: Pages, tokens: Seq<i64>, j: int, k: int)
    requires
        0 <= j <= k,
        256 * k <= tokens.len(),
        forall|i: int| j <= i < k ==> p.by_hash.contains_key(#[trigger] paged::prefix_key(tokens, i)),
        256 * k + 256 <= tokens.len() ==> !p.by_hash.contains_key(paged::prefix_key(tokens, k)),
    ensures
        paged::hit_count(p, tokens, j) == k - j,
    decreases k - j,
{
    if j < k {
        assert(p.by_hash.contains_key(paged::prefix_key(tokens, j)));
        lemma_hits_exact(p, tokens, j + 1, k);
    }
}

/// What registering the pages of a fresh request leaves: each page with its hash, and each hash
/// with its page.
proof fn lemma_registered(p: Pages, block: Seq<i32>, tokens: Seq<i64>, k: nat)
    requires
        sound(p),
        distinct(block),
        k <= block.len(),
        256 * k <= tokens.len(),
        keys_apart(tokens, tokens),
        forall|i: int|
            0 <= i < block.len() ==> 0 <= #[trigger] block[i] < p.rc.len() && p.rc[block[i] as int] == 1
                && p.hash[block[i] as int] is None,
        forall|h: u128| !#[trigger] p.by_hash.contains_key(h),
    ensures
        sound(registered(p, block, tokens, k)),
        registered(p, block, tokens, k).rc == p.rc,
        registered(p, block, tokens, k).free == p.free,
        registered(p, block, tokens, k).reclaimable == p.reclaimable,
        forall|i: int|
            k <= i < block.len() ==> registered(p, block, tokens, k).hash[#[trigger] block[i] as int] is None,
        forall|i: int|
            0 <= i < k ==> {
                let q = registered(p, block, tokens, k);
                let h = #[trigger] paged::prefix_key(tokens, i);
                q.by_hash.contains_key(h) && q.by_hash[h] == block[i]
            },
        forall|h: u128| #[trigger]
            registered(p, block, tokens, k).by_hash.contains_key(h) ==> exists|i: int|
                0 <= i < k && h == #[trigger] paged::prefix_key(tokens, i),
    decreases k,
{
    if k > 0 {
        let m = (k - 1) as nat;
        lemma_registered(p, block, tokens, m);
        let q = registered(p, block, tokens, m);
        let id = block[m as int];
        let h = paged::prefix_key(tokens, m as int);
        assert(q.hash[id as int] is None);
        hashing_keeps_sound(q, id, h);
        let r = registered(p, block, tokens, k);
        assert(!q.by_hash.contains_key(h)) by {
            if q.by_hash.contains_key(h) {
                let i = choose|i: int| 0 <= i < m && h == #[trigger] paged::prefix_key(tokens, i);
                assert(i == m);
            }
        }
        assert forall|i: int| k <= i < block.len() implies r.hash[#[trigger] block[i] as int] is None by {
            assert(q.hash[block[i] as int] is None);
            assert(block[m as int] != block[i]);
        }
        assert forall|i: int| 0 <= i < k implies {
            let x = #[trigger] paged::prefix_key(tokens, i);
            r.by_hash.contains_key(x) && r.by_hash[x] == block[i]
        } by {
            if i < m {
                let x = paged::prefix_key(tokens, i);
                assert(q.by_hash.contains_key(x) && q.by_hash[x] == block[i]);
            }
        }
        assert forall|x: u128| #[trigger] r.by_hash.contains_key(x) implies exists|i: int|
            0 <= i < k && x == #[trigger] paged::prefix_key(tokens, i) by {
            if q.by_hash.contains_key(x) {
                let i = choose|i: int| 0 <= i < m && x == #[trigger] paged::prefix_key(tokens, i);
                assert(0 <= i < k && x == paged::prefix_key(tokens, i));
            } else {
                assert(x == paged::prefix_key(tokens, m as int));
            }
        }
    }
}

/// A request that comes after another one in a new table, whose complete pages were registered,
/// shares exactly the leading pages that the two have in common, and no other page of the first.
pub proof fn common_pages_are_shared(n: nat, first: Seq<i64>, reserve: int, second: Seq<i64>, reserve2: int, k: int)
    requires
        n <= i32::MAX,
        reserve >= 0,
        reserve2 >= 0,
        paged::page_count(first.len() + reserve) <= n,
        keys_apart(first, first),
        keys_apart(first, second),
        common_pages(first, second, k),
        ({
            let (t, block, _) = paged::requested(paged::new_table(n, true), first, reserve);
            let p = registered(t.pages, block, first, (first.len() / 256) as nat);
            paged::page_count(second.len() + reserve2) - k <= paged::spare(p)
        }),
    ensures
        ({
            let (t, block, matched) = paged::requested(paged::new_table(n, true), first, reserve);
            let p = registered(t.pages, block, first, (first.len() / 256) as nat);
            let (after, ids, shared) = paged::requested(paged::Table { pages: p, ..t }, second, reserve2);
            &&& matched == 0
            &&& block.len() == paged::page_count(first.len() + reserve)
            &&& paged::can_share(p, second, reserve2)
            &&& shared == 256 * k
            &&& ids.len() == paged::page_count(second.len() + reserve2)
            &&& k <= ids.len()
            &&& k <= block.len()
            &&& ids.take(k) == block.take(k)
            &&& forall|i: int| k <= i < ids.len() ==> !listed(block, #[trigger] ids[i] as int)
        }),
{
    let need = paged::page_count(first.len() + reserve);
    let start = paged::new_pages(n);
    new_table_is_sound(n);
    lemma_hits_none(start, first);
    assert(paged::hits(start, first) =~= seq![]);
    let (t, block, _) = paged::requested(paged::new_table(n, true), first, reserve);
    assert((need - 0) as nat == need as nat);
    taking_many_keeps_sound(start, need as nat);
    let p1 = t.pages;
    assert(p1 == paged::taken_n(start, need as nat).0);
    assert(block =~= paged::taken_n(start, need as nat).1);
    assert forall|h: u128| !#[trigger] p1.by_hash.contains_key(h) by {
        if p1.by_hash.contains_key(h) {
            let id = p1.by_hash[h] as int;
            assert(sound(p1));
            assert(0 <= id < p1.rc.len());
            assert(p1.hash[id] == Some(h));
            if listed(block, id) {
                let i = choose|i: int| 0 <= i < block.len() && #[trigger] block[i] == id;
                assert(p1.hash[block[i] as int] is None);
            } else {
                assert(!listed(paged::taken_n(start, need as nat).1, id));
                assert(paged::taken_n(start, need as nat).0.rc[id] == start.rc[id]);
                assert(p1.hash[id] == start.hash[id]);
            }
        }
    }
    let full = (first.len() / 256) as nat;
    lemma_registered(p1, block, first, full);
    let p = registered(p1, block, first, full);
    // what the second request finds
    lemma_common_hits(p, block, first, second, k);
    let shared = paged::hits(p, second);
    assert forall|i: int| 0 <= i < p.rc.len() implies #[trigger] p.rc[i] + shared.len() <= u32::MAX by {
        if listed(block, i) {
            let j = choose|j: int| 0 <= j < block.len() && #[trigger] block[j] == i;
            assert(p1.rc[block[j] as int] == 1);
        } else {
            assert(p1.rc[i] == start.rc[i]);
        }
    }
    assert forall|i: int| 0 <= i < shared.len() implies 0 <= #[trigger] shared[i] < p.rc.len() && p.hash[shared[i] as int] is Some by {
        shared_pages_hold_the_prefix(p, second, i);
    }
    lemma_sharing_all(p, shared, shared.len() as int);
    paged::lemma_acquired_all(p, shared, shared.len() as int);
    assert forall|i: int| 0 <= i < shared.len() implies p.rc[#[trigger] shared[i] as int] > 0 by {
        assert(p1.rc[block[i] as int] == 1);
    }
    lemma_sharing_used(p, shared, shared.len() as int);
    let q = paged::acquired_all(p, shared);
    let rest = (paged::page_count(second.len() + reserve2) - shared.len()) as nat;
    taking_many_keeps_sound(q, rest);
    let fresh = paged::taken_n(q, rest).1;
    let ids = shared + fresh;
    assert(ids.take(k) =~= block.take(k));
    assert forall|i: int| k <= i < ids.len() implies !listed(block, #[trigger] ids[i] as int) by {
        let id = fresh[i - k];
        assert(q.rc[id as int] == 0);
        if listed(block, ids[i] as int) {
            let j = choose|j: int| 0 <= j < block.len() && #[trigger] block[j] == ids[i] as int;
            assert(p1.rc[block[j] as int] == 1);
            assert(p.rc[block[j] as int] <= q.rc[block[j] as int]);
        }
    }
}

/// Sharing pages that are in use takes none of the others.
proof fn lemma_sharing_used(p: Pages, ids: Seq<i32>, most: int)
    requires
        sound(p),
        ids.len() <= most,
        forall|i: int|
            0 <= i < ids.len() ==> 0 <= #[trigger] ids[i] < p.rc.len() && p.hash[ids[i] as int] is Some,
        forall|i: int| 0 <= i < ids.len() ==> p.rc[#[trigger] ids[i] as int] > 0,
        forall|i: int| 0 <= i < p.rc.len() ==> #[trigger] p.rc[i] + most <= u32::MAX,
    ensures
        paged::spare(paged::acquired_all(p, ids)) == paged::spare(p),
    decreases ids.len(),
{
    if ids.len() > 0 {
        let prev = ids.drop_last();
        assert forall|i: int| 0 <= i < prev.len() implies 0 <= #[trigger] prev[i] < p.rc.len() && p.hash[prev[i] as int] is Some by {
            assert(prev[i] == ids[i]);
        }
        assert forall|i: int| 0 <= i < prev.len() implies p.rc[#[trigger] prev[i] as int] > 0 by {
            assert(prev[i] == ids[i]);
        }
        lemma_sharing_used(p, prev, most);
        lemma_sharing_all(p, prev, most);
        paged::lemma_acquired_all(p, prev, most);
        let id = ids[ids.len() - 1];
        assert(p.rc[id as int] > 0);
        assert(p.rc[id as int] + most <= u32::MAX);
        sharing_keeps_sound(paged::acquired_all(p, prev), id);
    }
}

proof fn lemma_hits_none(p: Pages, tokens: Seq<i64>)
    requires
        p.by_hash == Map::<u128, i32>::empty(),
    ensures
        paged::hit_count(p, tokens, 0) == 0,
{
}

proof fn lemma_common_hits(p: Pages, block: Seq<i32>, first: Seq<i64>, second: Seq<i64>, k: int)
    requires
        common_pages(first, second, k),
        keys_apart(first, second),
        first.len() as int / 256 <= block.len(),
        forall|i: int|
            0 <= i < first.len() as int / 256 ==> {
                let h = #[trigger] paged::prefix_key(first, i);
                p.by_hash.contains_key(h) && p.by_hash[h] == block[i]
            },
        forall|h: u128| #[trigger]
            p.by_hash.contains_key(h) ==> exists|i: int|
                0 <= i < first.len() as int / 256 && h == #[trigger] paged::prefix_key(first, i),
    ensures
        paged::hits(p, second) == block.take(k),
{
    assert forall|i: int| 0 <= i < k implies #[trigger] paged::prefix_key(second, i) == paged::prefix_key(first, i) by {
        assert(first.take(256 * (i + 1)) =~= second.take(256 * (i + 1))) by {
            assert forall|x: int| 0 <= x < 256 * (i + 1) implies #[trigger] first[x] == second[x] by {
                assert(first.take(256 * k)[x] == second.take(256 * k)[x]);
            }
        }
        lemma_same_prefix(first, second, i + 1);
    }
    assert forall|i: int| 0 <= i < k implies p.by_hash.contains_key(#[trigger] paged::prefix_key(second, i))
        && p.by_hash[paged::prefix_key(second, i)] == block[i] by {
        assert(paged::prefix_key(second, i) == paged::prefix_key(first, i));
        let h = paged::prefix_key(first, i);
        assert(p.by_hash.contains_key(h) && p.by_hash[h] == block[i]);
    }
    if 256 * k + 256 <= second.len() && p.by_hash.contains_key(paged::prefix_key(second, k)) {
        let h = paged::prefix_key(second, k);
        let i = choose|i: int| 0 <= i < first.len() as int / 256 && h == #[trigger] paged::prefix_key(first, i);
        assert(i == k && first.take(256 * (i + 1)) == second.take(256 * (k + 1)));
    }
    lemma_hits_exact(p, second, 0, k);
    assert(paged::hits(p, second) =~= block.take(k));
}

/// While a page is free, taking one forgets nothing. After that the page that has been unused
/// longest goes, and only what it held is forgotten and told.
pub proof fn pages_unused_longest_go_first(p: Pages, h: u128)
    requires
        paged::ranged(p),
        paged::spare(p) > 0,
        forall|i: int| 0 <= i < p.reclaimable.len() ==> p.hash[(#[trigger] p.reclaimable[i]) as int] is Some,
    ensures
        ({
            let (q, id) = paged::taken(p);
            &&& q.rc[id as int] == 1 && q.hash[id as int] is None
            &&& p.free.len() > 0 ==> p.free.contains(id) && q.by_hash == p.by_hash && q.evicted == p.evicted && q.reclaimable
                == p.reclaimable
            &&& p.free.len() == 0 ==> p.reclaimable == seq![id] + q.reclaimable && q.evicted == p.evicted.push(
                (id, p.hash[id as int]->0),
            )
            &&& p.by_hash.contains_key(h) && p.by_hash[h] != id ==> q.by_hash.contains_key(h) && q.by_hash[h] == p.by_hash[h]
            &&& q.by_hash.contains_key(h) ==> p.by_hash.contains_key(h)
            &&& p.free.len() == 0 && p.by_hash.contains_key(h) && p.by_hash[h] == id && p.hash[id as int] == Some(h)
                ==> !q.by_hash.contains_key(h)
        }),
{
    if p.free.len() > 0 {
        assert(p.free[p.free.len() - 1] == p.free.last());
    } else {
        let id = p.reclaimable[0];
        assert(p.hash[id as int] is Some);
        assert(p.reclaimable =~= seq![id] + p.reclaimable.drop_first());
    }
}

/// A page that its last user gives back waits behind those that were given back before it where it
/// has a hash, and is handed out before all of them where it has none.
pub proof fn returned_pages_wait_their_turn(p: Pages, id: i32)
    requires
        paged::ranged(p),
        0 <= id < p.rc.len(),
        p.rc[id as int] == 1,
        p.free.len() == 0,
    ensures
        ({
            let q = paged::released_one(p, id);
            &&& paged::spare(q) == paged::spare(p) + 1
            &&& p.hash[id as int] is None ==> paged::taken(q).1 == id
            &&& p.hash[id as int] is Some && p.reclaimable.len() == 0 ==> paged::taken(q).1 == id
            &&& p.hash[id as int] is Some && p.reclaimable.len() > 0 ==> paged::taken(q).1 == paged::taken(p).1
        }),
{
}

/// A page that others still use stays theirs, whoever gives it back.
pub proof fn pages_in_use_stay(p: Pages, id: i32)
    requires
        0 <= id < p.rc.len(),
        p.rc[id as int] >= 2,
    ensures
        paged::released_one(p, id) == (Pages { rc: paged::released_one(p, id).rc, ..p }),
        paged::released_one(p, id).rc[id as int] == p.rc[id as int] - 1,
{
}

/// A request counts the prompt tokens asked for and those of them found in shared pages; where
/// nothing is shared nothing is counted.
pub proof fn requests_are_counted(t: paged::Table, tokens: Seq<i64>, reserve: int)
    requires
        t.stats.0 + tokens.len() <= u64::MAX,
        t.stats.1 + tokens.len() <= u64::MAX,
    ensures
        ({
            let (u, block, found) = paged::requested(t, tokens, reserve);
            &&& t.sharing ==> u.stats.1 == t.stats.1 + tokens.len() && u.stats.0 == t.stats.0 + found
            &&& !t.sharing ==> u.stats == t.stats && found == 0
            &&& 0 <= found <= tokens.len() && found % 256 == 0
        }),
{
    lemma_hits_fit(t.pages, tokens, 0);
}

proof fn lemma_hits_fit(p: Pages, tokens: Seq<i64>, k: int)
    requires
        0 <= k,
        256 * k <= tokens.len(),
    ensures
        0 <= paged::hit_count(p, tokens, k),
        256 * (k + paged::hit_count(p, tokens, k)) <= tokens.len(),
    decreases tokens.len() - 256 * k,
{
    if 256 * k + 256 <= tokens.len() && p.by_hash.contains_key(paged::prefix_key(tokens, k)) {
        lemma_hits_fit(p, tokens, k + 1);
    }
}

} // verus!
