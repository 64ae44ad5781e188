//! What holds of a page table after any uses of it.
use vstd::prelude::*;
use vstd::bytes::spec_u128_from_le_bytes;
use crate::page_laws::{
    counted, hashing_keeps_count, hashing_keeps_sound, lemma_times, lemma_times_concat, listed, new_table_is_sound,
    releasing_keeps_count, requests_keep_sound, sharing_keeps_count, sound, spare_and_used_pages_are_all,
    taking_many_keeps_count, taking_many_keeps_sound, times, used_pages,
};
use crate::paged::{
    acquired_all, can_share, chained, hashed, hits, lemma_hit_count, new_table, page_count,
    prefix_key, released, requested, spare, taken_n, Pages, Table,
};

verus! {

/// A use of a page table.
pub enum Use {
    /// So many pages are asked for.
    Alloc(nat),
    /// The pages of a prompt and of a reserve are asked for.
    Prefix(Seq<i64>, int),
    /// Sharing is switched on or off.
    Sharing(bool),
    /// What was evicted is told.
    Drain,
    /// A page gets the hash of its tokens, behind that of another.
    Hash(i32, Option<Seq<u8>>, Seq<i64>),
    /// A page gets the hash that was restored with it.
    Restore(i32, u128),
    /// A block is given back.
    Release(int),
}

/// A table, and the blocks that were handed out and not yet given back.
pub struct Store {
    pub table: Table,
    pub blocks: Seq<Seq<i32>>,
}

/// How often the blocks hold a page.
pub open spec fn references(blocks: Seq<Seq<i32>>, id: int) -> int
    decreases blocks.len(),
{
    if blocks.len() == 0 {
        0
    } else {
        references(blocks.drop_last(), id) + times(blocks.last(), id)
    }
}

/// Whether a block holds a page.
pub open spec fn in_a_block(blocks: Seq<Seq<i32>>, id: int) -> bool {
    exists|b: int| 0 <= b < blocks.len() && listed(#[trigger] blocks[b], id)
}

/// The pages that a block holds.
pub open spec fn held_pages(s: Store) -> Set<int> {
    vstd::set_lib::set_int_range(0, s.table.size).filter(|id: int| in_a_block(s.blocks, id))
}

/// What a use asks for: a page that gets a hash is held, a block that is given back was handed out,
/// and pages can be shared.
pub open spec fn proper(s: Store, u: Use) -> bool {
    match u {
        Use::Prefix(tokens, reserve) => {
            &&& 0 <= tokens.len() + reserve
            &&& s.table.sharing ==> can_share(s.table.pages, tokens, reserve)
        },
        Use::Hash(id, _, _) => 0 <= id < s.table.size && in_a_block(s.blocks, id as int),
        Use::Restore(id, _) => 0 <= id < s.table.size && in_a_block(s.blocks, id as int),
        Use::Release(b) => 0 <= b < s.blocks.len(),
        _ => true,
    }
}

/// Whether no page that a prompt finds is free, and under no hash.
pub open spec fn finds_no_free_page(s: Store, u: Use) -> bool {
    u matches Use::Prefix(tokens, _) ==> s.table.sharing ==> forall|i: int|
        0 <= i < hits(s.table.pages, tokens).len() && s.table.pages.rc[#[trigger] hits(s.table.pages, tokens)[i] as int]
            == 0 ==> s.table.pages.hash[hits(s.table.pages, tokens)[i] as int] is Some
}

/// Whether no hash is restored over another one under which the page is found.
pub open spec fn overwrites_no_hash(s: Store, u: Use) -> bool {
    let p = s.table.pages;
    u matches Use::Restore(id, h) ==> (p.hash[id as int] matches Some(o) ==> o == h || !(p.by_hash.contains_key(o)
        && p.by_hash[o] == id))
}

/// The pages after `register_page_hash`.
pub open spec fn page_hashed(p: Pages, id: i32, prev: Option<Seq<u8>>, tokens: Seq<i64>) -> Pages {
    if p.hash[id as int] is Some || tokens.len() != 256 {
        p
    } else {
        hashed(p, id, spec_u128_from_le_bytes(chained(prev, tokens)))
    }
}

/// What a use leaves. A request for more pages than there are is refused.
pub open spec fn used(s: Store, u: Use) -> Store {
    let t = s.table;
    match u {
        Use::Alloc(n) => if n <= spare(t.pages) {
            let (p, ids) = taken_n(t.pages, n);
            Store { table: Table { pages: p, ..t }, blocks: s.blocks.push(ids) }
        } else {
            s
        },
        Use::Prefix(tokens, reserve) => if t.sharing || page_count(tokens.len() + reserve) <= spare(t.pages) {
            let (after, ids, _) = requested(t, tokens, reserve);
            Store { table: after, blocks: s.blocks.push(ids) }
        } else {
            s
        },
        Use::Sharing(on) => Store { table: Table { sharing: on, ..t }, ..s },
        Use::Drain => Store { table: Table { pages: Pages { evicted: seq![], ..t.pages }, ..t }, ..s },
        Use::Hash(id, prev, tokens) => Store {
            table: Table { pages: page_hashed(t.pages, id, prev, tokens), ..t },
            ..s
        },
        Use::Restore(id, h) => Store { table: Table { pages: hashed(t.pages, id, h), ..t }, ..s },
        Use::Release(b) => Store {
            table: Table { pages: released(t.pages, s.blocks[b]), ..t },
            blocks: s.blocks.remove(b),
        },
    }
}

/// What uses leave, one after the other, of a new table of `n` pages.
pub open spec fn after(n: nat, uses: Seq<Use>) -> Store
    decreases uses.len(),
{
    if uses.len() == 0 {
        Store { table: new_table(n, false), blocks: seq![] }
    } else {
        used(after(n, uses.drop_last()), uses.last())
    }
}

/// Whether each use is proper where it comes.
pub open spec fn all_proper(n: nat, uses: Seq<Use>) -> bool {
    forall|i: int| 0 <= i < uses.len() ==> proper(after(n, uses.take(i)), #[trigger] uses[i])
}

/// Every page has as many references as the blocks hold, and the pages are counted as they should be.
pub open spec fn kept(s: Store) -> bool {
    &&& counted(s.table.pages)
    &&& s.table.pages.rc.len() == s.table.size
    &&& forall|id: int| 0 <= id < s.table.size ==> #[trigger] s.table.pages.rc[id] == references(s.blocks, id)
    &&& forall|b: int, i: int|
        0 <= b < s.blocks.len() && 0 <= i < s.blocks[b].len() ==> 0 <= #[trigger] s.blocks[b][i] < s.table.size
}

proof fn lemma_references(blocks: Seq<Seq<i32>>, id: int)
    ensures
        references(blocks, id) >= 0,
        references(blocks, id) > 0 <==> in_a_block(blocks, id),
        forall|b: int| 0 <= b < blocks.len() ==> times(#[trigger] blocks[b], id) <= references(blocks, id),
    decreases blocks.len(),
{
    if blocks.len() > 0 {
        let t = blocks.drop_last();
        lemma_references(t, id);
        lemma_times(blocks.last(), id);
        assert forall|b: int| 0 <= b < blocks.len() implies times(#[trigger] blocks[b], id) <= references(
            blocks,
            id,
        ) by {
            if b < t.len() {
                assert(t[b] == blocks[b]);
            }
        }
        if in_a_block(t, id) {
            let b = choose|b: int| 0 <= b < t.len() && listed(#[trigger] t[b], id);
            assert(listed(blocks[b], id));
        }
        if listed(blocks.last(), id) {
            assert(listed(blocks[blocks.len() - 1], id));
        }
        if in_a_block(blocks, id) {
            let b = choose|b: int| 0 <= b < blocks.len() && listed(#[trigger] blocks[b], id);
            if b < t.len() {
                assert(listed(t[b], id));
            }
        }
    }
}

proof fn lemma_references_remove(blocks: Seq<Seq<i32>>, b: int, id: int)
    requires
        0 <= b < blocks.len(),
    ensures
        references(blocks.remove(b), id) == references(blocks, id) - times(blocks[b], id),
    decreases blocks.len(),
{
    let t = blocks.drop_last();
    if b == blocks.len() - 1 {
        assert(blocks.remove(b) =~= t);
    } else {
        lemma_references_remove(t, b, id);
        assert(blocks.remove(b).drop_last() =~= t.remove(b));
        assert(blocks.remove(b).last() == blocks.last());
        assert(t[b] == blocks[b]);
    }
}

proof fn lemma_taken(p: Pages, n: nat, id: int)
    requires
        counted(p),
        n <= spare(p),
        0 <= id < p.rc.len(),
    ensures
        taken_n(p, n).0.rc[id] == p.rc[id] + times(taken_n(p, n).1, id),
{
    taking_many_keeps_count(p, n);
    let ids = taken_n(p, n).1;
    lemma_times(ids, id);
    if listed(ids, id) {
        let i = choose|i: int| 0 <= i < ids.len() && #[trigger] ids[i] == id;
        assert(p.rc[ids[i] as int] == 0);
    }
}

/// Sharing pages that are in use, or hashed, keeps the count of a table.
proof fn lemma_acquired(p: Pages, ids: Seq<i32>, most: int)
    requires
        counted(p),
        ids.len() <= most,
        forall|i: int| 0 <= i < ids.len() ==> 0 <= #[trigger] ids[i] < p.rc.len(),
        forall|i: int|
            0 <= i < ids.len() && p.rc[#[trigger] ids[i] as int] == 0 ==> p.hash[ids[i] as int] is Some,
        forall|i: int| 0 <= i < p.rc.len() ==> #[trigger] p.rc[i] + most <= u32::MAX,
    ensures
        counted(acquired_all(p, ids)),
        acquired_all(p, ids).rc.len() == p.rc.len(),
        acquired_all(p, ids).hash == p.hash,
        forall|id: int| 0 <= id < p.rc.len() ==> #[trigger] acquired_all(p, ids).rc[id] == p.rc[id] + times(ids, id),
    decreases ids.len(),
{
    if ids.len() > 0 {
        let prev = ids.drop_last();
        assert forall|i: int| 0 <= i < prev.len() implies 0 <= #[trigger] prev[i] < p.rc.len() && (p.rc[prev[i] as int]
            == 0 ==> p.hash[prev[i] as int] is Some) by {
            assert(prev[i] == ids[i]);
        }
        let last = ids[ids.len() - 1];
        lemma_acquired(p, prev, most);
        lemma_times(prev, last as int);
        assert(p.rc[last as int] + most <= u32::MAX);
        let q = acquired_all(p, prev);
        assert(q.rc[last as int] == p.rc[last as int] + times(prev, last as int));
        sharing_keeps_count(q, last);
        assert forall|id: int| 0 <= id < p.rc.len() implies #[trigger] acquired_all(p, ids).rc[id] == p.rc[id] + times(
            ids,
            id,
        ) by {
            assert(q.rc[id] == p.rc[id] + times(prev, id));
        }
    }
}

/// Giving back references that there are keeps the count of a table.
proof fn lemma_released(p: Pages, ids: Seq<i32>)
    requires
        counted(p),
        forall|i: int| 0 <= i < ids.len() ==> 0 <= #[trigger] ids[i] < p.rc.len(),
        forall|x: int| 0 <= x < p.rc.len() ==> times(ids, x) <= #[trigger] p.rc[x],
    ensures
        counted(released(p, ids)),
        released(p, ids).rc.len() == p.rc.len(),
        released(p, ids).hash == p.hash,
        released(p, ids).by_hash == p.by_hash,
        forall|id: int| 0 <= id < p.rc.len() ==> #[trigger] released(p, ids).rc[id] == p.rc[id] - times(ids, id),
    decreases ids.len(),
{
    if ids.len() > 0 {
        let prev = ids.drop_last();
        let last = ids[ids.len() - 1];
        assert forall|i: int| 0 <= i < prev.len() implies 0 <= #[trigger] prev[i] < p.rc.len() by {
            assert(prev[i] == ids[i]);
        }
        assert forall|x: int| 0 <= x < p.rc.len() implies times(prev, x) <= #[trigger] p.rc[x] by {
            assert(times(ids, x) <= p.rc[x]);
        }
        lemma_released(p, prev);
        let q = released(p, prev);
        assert(times(ids, last as int) <= p.rc[last as int]);
        assert(q.rc[last as int] == p.rc[last as int] - times(prev, last as int));
        releasing_keeps_count(q, last);
        assert forall|id: int| 0 <= id < p.rc.len() implies #[trigger] released(p, ids).rc[id] == p.rc[id] - times(
            ids,
            id,
        ) by {
            assert(q.rc[id] == p.rc[id] - times(prev, id));
        }
    }
}

proof fn lemma_hits_ranged(p: Pages, tokens: Seq<i64>)
    requires
        counted(p),
    ensures
        forall|i: int| 0 <= i < hits(p, tokens).len() ==> 0 <= #[trigger] hits(p, tokens)[i] < p.rc.len(),
{
    lemma_hit_count(p, tokens, 0);
    assert forall|i: int| 0 <= i < hits(p, tokens).len() implies 0 <= #[trigger] hits(p, tokens)[i] < p.rc.len() by {
        assert(p.by_hash.contains_key(prefix_key(tokens, i)));
    }
}

/// A block more: its pages have one reference more for each time they stand in it.
proof fn lemma_block_added(s: Store, table: Table, ids: Seq<i32>)
    requires
        kept(s),
        counted(table.pages),
        table.size == s.table.size,
        table.pages.rc.len() == s.table.size,
        forall|i: int| 0 <= i < ids.len() ==> 0 <= #[trigger] ids[i] < s.table.size,
        forall|id: int|
            0 <= id < s.table.size ==> #[trigger] table.pages.rc[id] == s.table.pages.rc[id] + times(ids, id),
    ensures
        kept(Store { table, blocks: s.blocks.push(ids) }),
{
    let t = Store { table, blocks: s.blocks.push(ids) };
    assert forall|id: int| 0 <= id < t.table.size implies #[trigger] t.table.pages.rc[id] == references(
        t.blocks,
        id,
    ) by {
        assert(t.blocks.drop_last() =~= s.blocks);
        assert(s.table.pages.rc[id] == references(s.blocks, id));
    }
    assert forall|b: int, i: int|
        0 <= b < t.blocks.len() && 0 <= i < t.blocks[b].len() implies 0 <= #[trigger] t.blocks[b][i] < t.table.size by {
        if b < s.blocks.len() {
            assert(t.blocks[b] == s.blocks[b]);
            assert(0 <= s.blocks[b][i] < s.table.size);
        } else {
            assert(t.blocks[b] == ids);
        }
    }
}

/// A proper use that finds no free page keeps the count.
proof fn lemma_used(s: Store, u: Use)
    requires
        kept(s),
        proper(s, u),
        finds_no_free_page(s, u),
    ensures
        kept(used(s, u)),
        used(s, u).table.size == s.table.size,
{
    let t = s.table;
    let p = t.pages;
    match u {
        Use::Alloc(n) => {
            if n <= spare(p) {
                taking_many_keeps_count(p, n);
                let (q, ids) = taken_n(p, n);
                assert forall|id: int| 0 <= id < t.size implies #[trigger] q.rc[id] == p.rc[id] + times(ids, id) by {
                    lemma_taken(p, n, id);
                }
                lemma_block_added(s, Table { pages: q, ..t }, ids);
            }
        },
        Use::Prefix(tokens, reserve) => {
            let need = page_count(tokens.len() + reserve);
            if t.sharing {
                let shared = hits(p, tokens);
                lemma_hits_ranged(p, tokens);
                lemma_acquired(p, shared, shared.len() as int);
                let q = acquired_all(p, shared);
                let n = (need - shared.len()) as nat;
                taking_many_keeps_count(q, n);
                let (r, fresh) = taken_n(q, n);
                let ids = shared + fresh;
                assert forall|id: int| 0 <= id < t.size implies #[trigger] r.rc[id] == p.rc[id] + times(ids, id) by {
                    lemma_taken(q, n, id);
                    lemma_times_concat(shared, fresh, id);
                    assert(q.rc[id] == p.rc[id] + times(shared, id));
                }
                assert forall|i: int| 0 <= i < ids.len() implies 0 <= #[trigger] ids[i] < t.size by {
                    if i < shared.len() {
                        assert(ids[i] == shared[i]);
                    } else {
                        assert(ids[i] == fresh[i - shared.len()]);
                    }
                }
                lemma_block_added(s, requested(t, tokens, reserve).0, ids);
            } else if need <= spare(p) {
                taking_many_keeps_count(p, need as nat);
                let (q, ids) = taken_n(p, need as nat);
                assert forall|id: int| 0 <= id < t.size implies #[trigger] q.rc[id] == p.rc[id] + times(ids, id) by {
                    lemma_taken(p, need as nat, id);
                }
                lemma_block_added(s, requested(t, tokens, reserve).0, ids);
            }
        },
        Use::Sharing(_) => {},
        Use::Drain => {
            let q = used(s, u).table.pages;
            assert(forall|x: int| listed(q.free, x) == listed(p.free, x));
            assert(counted(q));
        },
        Use::Hash(id, prev, tokens) => {
            lemma_references(s.blocks, id as int);
            assert(p.rc[id as int] == references(s.blocks, id as int));
            if p.hash[id as int] is None && tokens.len() == 256 {
                hashing_keeps_count(p, id, spec_u128_from_le_bytes(chained(prev, tokens)));
            }
        },
        Use::Restore(id, h) => {
            lemma_references(s.blocks, id as int);
            assert(p.rc[id as int] == references(s.blocks, id as int));
            hashing_keeps_count(p, id, h);
        },
        Use::Release(b) => {
            let ids = s.blocks[b];
            assert forall|x: int| 0 <= x < p.rc.len() implies times(ids, x) <= #[trigger] p.rc[x] by {
                lemma_references(s.blocks, x);
                assert(p.rc[x] == references(s.blocks, x));
            }
            assert forall|i: int| 0 <= i < ids.len() implies 0 <= #[trigger] ids[i] < p.rc.len() by {
                assert(0 <= s.blocks[b][i] < t.size);
            }
            lemma_released(p, ids);
            let r = used(s, u);
            assert forall|id: int| 0 <= id < t.size implies #[trigger] r.table.pages.rc[id] == references(
                r.blocks,
                id,
            ) by {
                lemma_references_remove(s.blocks, b, id);
                assert(p.rc[id] == references(s.blocks, id));
            }
            assert forall|c: int, i: int|
                0 <= c < r.blocks.len() && 0 <= i < r.blocks[c].len() implies 0 <= #[trigger] r.blocks[c][i] < t.size by {
                let d = if c < b {
                    c
                } else {
                    c + 1
                };
                assert(r.blocks[c] == s.blocks[d]);
                assert(0 <= s.blocks[d][i] < t.size);
            }
        },
    }
}

/// In a table that is counted, the pages that a block holds and those that could be handed out are
/// all the pages, and none is both.
proof fn lemma_pages_add_up(s: Store)
    requires
        kept(s),
    ensures
        spare(s.table.pages) + held_pages(s).len() == s.table.size,
        forall|id: int|
            0 <= id < s.table.size ==> #[trigger] in_a_block(s.blocks, id) == !(listed(s.table.pages.free, id) || listed(
                s.table.pages.reclaimable,
                id,
            )),
{
    let p = s.table.pages;
    let n = s.table.size;
    assert forall|id: int| 0 <= id < n implies #[trigger] in_a_block(s.blocks, id) == !(listed(p.free, id) || listed(
        p.reclaimable,
        id,
    )) by {
        lemma_references(s.blocks, id);
        assert(p.rc[id] == references(s.blocks, id));
    }
    let held = held_pages(s);
    assert(held =~= used_pages(p)) by {
        assert forall|id: int| 0 <= id < n implies in_a_block(s.blocks, id) == (p.rc[id] > 0) by {
            lemma_references(s.blocks, id);
            assert(p.rc[id] == references(s.blocks, id));
        }
    }
    spare_and_used_pages_are_all(p);
}

proof fn lemma_kept(n: nat, uses: Seq<Use>)
    requires
        n <= i32::MAX,
        all_proper(n, uses),
        forall|i: int| 0 <= i < uses.len() ==> finds_no_free_page(after(n, uses.take(i)), #[trigger] uses[i]),
    ensures
        kept(after(n, uses)),
        after(n, uses).table.size == n,
    decreases uses.len(),
{
    if uses.len() == 0 {
        new_table_is_sound(n);
    } else {
        let prev = uses.drop_last();
        assert forall|i: int| 0 <= i < prev.len() implies proper(after(n, prev.take(i)), #[trigger] prev[i])
            && finds_no_free_page(after(n, prev.take(i)), prev[i]) by {
            assert(prev.take(i) =~= uses.take(i));
            assert(prev[i] == uses[i]);
        }
        lemma_kept(n, prev);
        let k = uses.len() - 1;
        assert(uses.take(k) =~= prev);
        assert(proper(after(n, uses.take(k)), uses[k]));
        lemma_used(after(n, prev), uses[k]);
    }
}

/// However a table is used, no page is lost, counted twice, or both held and free: the pages that
/// could be handed out and those that a block holds are all its pages. A page may get another hash
/// while it is held; only a prompt that then finds the page under its old hash, after it was handed
/// out anew and came back, is left out.
pub proof fn pages_add_up(n: nat, uses: Seq<Use>)
    requires
        n <= i32::MAX,
        all_proper(n, uses),
        forall|i: int| 0 <= i < uses.len() ==> finds_no_free_page(after(n, uses.take(i)), #[trigger] uses[i]),
    ensures
        ({
            let s = after(n, uses);
            &&& s.table.size == n
            &&& spare(s.table.pages) + held_pages(s).len() == n
            &&& forall|id: int|
                0 <= id < n ==> #[trigger] in_a_block(s.blocks, id) == !(listed(s.table.pages.free, id) || listed(
                    s.table.pages.reclaimable,
                    id,
                ))
        }),
{
    lemma_kept(n, uses);
    lemma_pages_add_up(after(n, uses));
}

/// What a prompt finds in a sound table is hashed.
proof fn lemma_hits_hashed(s: Store, u: Use)
    requires
        sound(s.table.pages),
    ensures
        finds_no_free_page(s, u),
{
    let p = s.table.pages;
    if let Use::Prefix(tokens, _) = u {
        lemma_hit_count(p, tokens, 0);
        assert forall|i: int| 0 <= i < hits(p, tokens).len() implies p.hash[#[trigger] hits(p, tokens)[i] as int] is Some by {
            assert(p.by_hash.contains_key(prefix_key(tokens, i)));
        }
    }
}

/// A proper use that overwrites no hash keeps a table sound.
proof fn lemma_used_sound(s: Store, u: Use)
    requires
        kept(s),
        sound(s.table.pages),
        proper(s, u),
        overwrites_no_hash(s, u),
    ensures
        sound(used(s, u).table.pages),
{
    let t = s.table;
    let p = t.pages;
    lemma_hits_hashed(s, u);
    lemma_used(s, u);
    match u {
        Use::Alloc(n) => {
            if n <= spare(p) {
                taking_many_keeps_sound(p, n);
            }
        },
        Use::Prefix(tokens, reserve) => {
            let need = page_count(tokens.len() + reserve);
            if t.sharing {
                requests_keep_sound(p, tokens, reserve);
            } else if need <= spare(p) {
                taking_many_keeps_sound(p, need as nat);
            }
        },
        Use::Hash(id, prev, tokens) => {
            lemma_references(s.blocks, id as int);
            assert(p.rc[id as int] == references(s.blocks, id as int));
            if p.hash[id as int] is None && tokens.len() == 256 {
                hashing_keeps_sound(p, id, spec_u128_from_le_bytes(chained(prev, tokens)));
            }
        },
        Use::Restore(id, h) => {
            lemma_references(s.blocks, id as int);
            assert(p.rc[id as int] == references(s.blocks, id as int));
            hashing_keeps_sound(p, id, h);
        },
        Use::Release(b) => {
            let ids = s.blocks[b];
            assert forall|x: int| 0 <= x < p.rc.len() implies times(ids, x) <= #[trigger] p.rc[x] by {
                lemma_references(s.blocks, x);
                assert(p.rc[x] == references(s.blocks, x));
            }
            assert forall|i: int| 0 <= i < ids.len() implies 0 <= #[trigger] ids[i] < p.rc.len() by {
                assert(0 <= s.blocks[b][i] < t.size);
            }
            lemma_released(p, ids);
        },
        _ => {},
    }
}

/// Where no hash is restored over another one under which the page is found, a table stays sound,
/// and no prompt ever finds a free page.
pub proof fn fresh_hashes_keep_sound(n: nat, uses: Seq<Use>)
    requires
        n <= i32::MAX,
        all_proper(n, uses),
        forall|i: int| 0 <= i < uses.len() ==> overwrites_no_hash(after(n, uses.take(i)), #[trigger] uses[i]),
    ensures
        sound(after(n, uses).table.pages),
        forall|i: int| 0 <= i < uses.len() ==> finds_no_free_page(after(n, uses.take(i)), #[trigger] uses[i]),
    decreases uses.len(),
{
    if uses.len() == 0 {
        new_table_is_sound(n);
    } else {
        let prev = uses.drop_last();
        let k = uses.len() - 1;
        assert forall|i: int| 0 <= i < prev.len() implies proper(after(n, prev.take(i)), #[trigger] prev[i])
            && overwrites_no_hash(after(n, prev.take(i)), prev[i]) by {
            assert(prev.take(i) =~= uses.take(i));
            assert(prev[i] == uses[i]);
        }
        fresh_hashes_keep_sound(n, prev);
        lemma_kept(n, prev);
        assert(uses.take(k) =~= prev);
        assert(proper(after(n, uses.take(k)), uses[k]) && overwrites_no_hash(after(n, uses.take(k)), uses[k]));
        assert forall|i: int| 0 <= i < uses.len() implies finds_no_free_page(after(n, uses.take(i)), #[trigger] uses[i]) by {
            if i < k {
                assert(prev.take(i) =~= uses.take(i));
                assert(finds_no_free_page(after(n, prev.take(i)), prev[i]));
            } else {
                lemma_hits_hashed(after(n, prev), uses[k]);
            }
        }
        lemma_used_sound(after(n, prev), uses[k]);
    }
}

} // verus!
