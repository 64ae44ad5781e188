//! The page allocator of the shared KV cache, with prefix sharing.
//!
//! Physical pages are numbered from zero. Each carries a reference count (a hashed prefix
//! page is shared by every job that matched it) and, once it holds a complete span of
//! tokens, that span's chained content hash. A page whose count drops to zero but that
//! still has a hash is kept reclaimable: a later job with the same prefix revives it,
//! until the free list runs dry and the oldest one is repurposed.
use vstd::prelude::*;
use vstd::bytes::{
    lemma_auto_spec_u128_to_from_le_bytes, lemma_auto_spec_u64_to_from_le_bytes, spec_u128_from_le_bytes,
    spec_u128_to_le_bytes, spec_u64_to_le_bytes, u128_from_le_bytes, u128_to_le_bytes, u64_to_le_bytes,
};
use vstd::std_specs::hash::DefaultHasherAdditionalSpecFns;
use std::collections::hash_map::DefaultHasher;
use std::collections::HashMap;
use std::collections::VecDeque;
use std::hash::Hasher;

verus! {

broadcast use vstd::std_specs::hash::group_hash_axioms;

/// Tokens per page.
pub const PAGE_SIZE: i64 = 256;

/// The chained content hash of a complete page.
pub type PageHash = [u8; 16];

/// A page hash as a number.
pub open spec fn key_of(h: PageHash) -> u128 {
    spec_u128_from_le_bytes(h@)
}

/// The bytes of the hash before a page, if there is one.
pub open spec fn bytes_opt(h: Option<PageHash>) -> Option<Seq<u8>> {
    match h {
        Some(x) => Some(x@),
        None => None,
    }
}

/// Pages needed to hold `tokens` tokens, rounded up (towards zero below none).
pub open spec fn page_count(tokens: int) -> int {
    if tokens + 255 >= 0 {
        (tokens + 255) / 256
    } else {
        -((-(tokens + 255)) / 256)
    }
}

/// Pages needed to hold `tokens` tokens.
pub fn pages_for(tokens: i64) -> (r: i64)
    requires
        tokens <= i64::MAX - 255,
    ensures
        r == page_count(tokens as int),
{
    let t: i64 = tokens + (PAGE_SIZE - 1);
    if t >= 0 {
        t / PAGE_SIZE
    } else if t == i64::MIN {
        -36028797018963968
    } else {
        -((-t) / PAGE_SIZE)
    }
}

/// The bytes of a list of tokens, eight each, least significant first.
pub open spec fn token_bytes(tokens: Seq<i64>) -> Seq<u8>
    decreases tokens.len(),
{
    if tokens.len() == 0 {
        seq![]
    } else {
        token_bytes(tokens.drop_last()) + spec_u64_to_le_bytes(tokens.last() as u64)
    }
}

/// What is hashed for a page: the seed, whether there is a page before it and its hash,
/// the number of tokens and the tokens.
pub open spec fn page_writes(seed: u64, prev: Option<Seq<u8>>, tokens: Seq<i64>) -> Seq<Seq<u8>> {
    let head = seq![spec_u64_to_le_bytes(seed)];
    let mid = match prev {
        None => seq![spec_u64_to_le_bytes(0)],
        Some(h) => seq![spec_u64_to_le_bytes(1), spec_u64_to_le_bytes(16), h],
    };
    head + mid + seq![spec_u64_to_le_bytes(tokens.len() as u64), token_bytes(tokens)]
}

/// One pass of the page hash.
pub open spec fn page_digest(seed: u64, prev: Option<Seq<u8>>, tokens: Seq<i64>) -> u64 {
    DefaultHasher::spec_finish(page_writes(seed, prev, tokens))
}

/// The bytes of the chained hash of a page: two passes with different seeds.
pub open spec fn chained(prev: Option<Seq<u8>>, tokens: Seq<i64>) -> Seq<u8> {
    spec_u64_to_le_bytes(page_digest(0x9E37_79B9_7F4A_7C15, prev, tokens)) + spec_u64_to_le_bytes(
        page_digest(0xC2B2_AE3D_27D4_EB4F, prev, tokens),
    )
}

fn digest(seed: u64, prev: Option<PageHash>, tokens: &[i64]) -> (r: u64)
    ensures
        r == page_digest(seed, bytes_opt(prev), tokens@),
{
    let mut h = DefaultHasher::new();
    h.write(u64_to_le_bytes(seed).as_slice());
    match prev {
        None => {
            h.write(u64_to_le_bytes(0).as_slice());
        },
        Some(p) => {
            h.write(u64_to_le_bytes(1).as_slice());
            h.write(u64_to_le_bytes(16).as_slice());
            h.write(p.as_slice());
        },
    }
    h.write(u64_to_le_bytes(tokens.len() as u64).as_slice());
    let mut bytes: Vec<u8> = Vec::new();
    let mut i: usize = 0;
    assert(tokens@.take(0) =~= seq![]);
    while i < tokens.len()
        invariant
            i <= tokens@.len(),
            bytes@ == token_bytes(tokens@.take(i as int)),
        decreases tokens@.len() - i,
    {
        let mut b = u64_to_le_bytes(tokens[i] as u64);
        bytes.append(&mut b);
        assert(tokens@.take(i + 1).drop_last() =~= tokens@.take(i as int));
        i = i + 1;
    }
    assert(tokens@.take(i as int) =~= tokens@);
    h.write(bytes.as_slice());
    assert(h@ =~= page_writes(seed, bytes_opt(prev), tokens@));
    h.finish()
}

fn hash_from(v: &Vec<u8>) -> (r: PageHash)
    requires
        v@.len() == 16,
    ensures
        r@ == v@,
{
    let r = [
        v[0],
        v[1],
        v[2],
        v[3],
        v[4],
        v[5],
        v[6],
        v[7],
        v[8],
        v[9],
        v[10],
        v[11],
        v[12],
        v[13],
        v[14],
        v[15],
    ];
    assert(r@ =~= v@);
    r
}

/// The chained content hash of one complete page.
pub fn chain_hash(prev: Option<PageHash>, token_ids: &[i64]) -> (r: PageHash)
    ensures
        r@ == chained(bytes_opt(prev), token_ids@),
{
    proof {
        lemma_auto_spec_u64_to_from_le_bytes();
    }
    let mut out = u64_to_le_bytes(digest(0x9E37_79B9_7F4A_7C15, prev, token_ids));
    let mut b = u64_to_le_bytes(digest(0xC2B2_AE3D_27D4_EB4F, prev, token_ids));
    out.append(&mut b);
    hash_from(&out)
}

/// The state of the page table.
#[verifier::ext_equal]
pub struct Pages {
    /// Unused pages, the next one to be handed out last.
    pub free: Seq<i32>,
    /// How many jobs use each page.
    pub rc: Seq<u32>,
    /// The hash of each page that is complete.
    pub hash: Seq<Option<u128>>,
    /// The page that is shared for each hash.
    pub by_hash: Map<u128, i32>,
    /// Unused pages that still have a hash, the oldest first.
    pub reclaimable: Seq<i32>,
    /// Hashed pages repurposed, and the hashes that they had.
    pub evicted: Seq<(i32, u128)>,
}

/// Pages that were never used, the first one to be handed out first.
pub open spec fn new_pages(n: nat) -> Pages {
    Pages {
        free: Seq::new(n, |i: int| (n - 1 - i) as i32),
        rc: Seq::new(n, |i: int| 0u32),
        hash: Seq::new(n, |i: int| None::<u128>),
        by_hash: Map::empty(),
        reclaimable: Seq::empty(),
        evicted: Seq::empty(),
    }
}

/// How many pages could be handed out.
pub open spec fn spare(p: Pages) -> int {
    (p.free.len() + p.reclaimable.len()) as int
}

/// One page taken for fresh use: a free one, else the oldest reclaimable one.
pub open spec fn taken(p: Pages) -> (Pages, i32) {
    if p.free.len() > 0 {
        let id = p.free.last();
        (
            Pages {
                free: p.free.drop_last(),
                rc: p.rc.update(id as int, 1),
                hash: p.hash.update(id as int, None),
                ..p
            },
            id,
        )
    } else {
        let id = p.reclaimable[0];
        let q = Pages {
            reclaimable: p.reclaimable.drop_first(),
            rc: p.rc.update(id as int, 1),
            hash: p.hash.update(id as int, None),
            ..p
        };
        match p.hash[id as int] {
            Some(h) => (
                Pages {
                    by_hash: if p.by_hash.contains_key(h) && p.by_hash[h] == id {
                        p.by_hash.remove(h)
                    } else {
                        p.by_hash
                    },
                    evicted: p.evicted.push((id, h)),
                    ..q
                },
                id,
            ),
            None => (q, id),
        }
    }
}

/// `n` pages taken one after another.
pub open spec fn taken_n(p: Pages, n: nat) -> (Pages, Seq<i32>)
    decreases n,
{
    if n == 0 {
        (p, seq![])
    } else {
        let (q, ids) = taken_n(p, (n - 1) as nat);
        let (r, id) = taken(q);
        (r, ids.push(id))
    }
}

/// Where `x` first stands in `s`; the length where it does not.
pub open spec fn place_of(s: Seq<i32>, x: i32) -> int
    decreases s.len(),
{
    if s.len() == 0 {
        0
    } else {
        let k = place_of(s.drop_last(), x);
        if k < s.len() - 1 || s.last() == x {
            k
        } else {
            s.len() as int
        }
    }
}

/// `s` without the first `x`.
pub open spec fn without(s: Seq<i32>, x: i32) -> Seq<i32> {
    let k = place_of(s, x);
    if k < s.len() {
        s.remove(k)
    } else {
        s
    }
}

/// One more reference to a page.
pub open spec fn acquired(p: Pages, id: i32) -> Pages {
    Pages {
        reclaimable: if p.rc[id as int] == 0 {
            without(p.reclaimable, id)
        } else {
            p.reclaimable
        },
        rc: p.rc.update(id as int, (p.rc[id as int] + 1) as u32),
        ..p
    }
}

/// One more reference to each of `ids`, in order.
pub open spec fn acquired_all(p: Pages, ids: Seq<i32>) -> Pages
    decreases ids.len(),
{
    if ids.len() == 0 {
        p
    } else {
        acquired(acquired_all(p, ids.drop_last()), ids.last())
    }
}

/// One reference to a page given back.
pub open spec fn released_one(p: Pages, id: i32) -> Pages {
    let n: u32 = if p.rc[id as int] > 0 {
        (p.rc[id as int] - 1) as u32
    } else {
        0
    };
    let q = Pages { rc: p.rc.update(id as int, n), ..p };
    if n > 0 {
        q
    } else if p.hash[id as int] is Some {
        Pages { reclaimable: p.reclaimable.push(id), ..q }
    } else {
        Pages { free: p.free.push(id), ..q }
    }
}

/// One reference to each of `ids` given back, in order.
pub open spec fn released(p: Pages, ids: Seq<i32>) -> Pages
    decreases ids.len(),
{
    if ids.len() == 0 {
        p
    } else {
        released_one(released(p, ids.drop_last()), ids.last())
    }
}

/// A page with a hash; the hash's shared page stays the one that had it first.
pub open spec fn hashed(p: Pages, id: i32, h: u128) -> Pages {
    Pages {
        hash: p.hash.update(id as int, Some(h)),
        by_hash: if p.by_hash.contains_key(h) {
            p.by_hash
        } else {
            p.by_hash.insert(h, id)
        },
        ..p
    }
}

/// The tokens of page `k`.
pub open spec fn page_tokens(tokens: Seq<i64>, k: int) -> Seq<i64> {
    tokens.subrange(256 * k, 256 * k + 256)
}

/// The bytes of the chained hash of page `k`, given those of the page before.
pub open spec fn prefix_bytes(tokens: Seq<i64>, k: int) -> Option<Seq<u8>>
    decreases k,
{
    if k <= 0 {
        None
    } else {
        Some(chained(prefix_bytes(tokens, k - 1), page_tokens(tokens, k - 1)))
    }
}

/// The chained hash of page `k` of `tokens`.
pub open spec fn prefix_key(tokens: Seq<i64>, k: int) -> u128 {
    spec_u128_from_le_bytes(prefix_bytes(tokens, k + 1)->0)
}

/// How many leading complete pages of `tokens`, from page `k` on, are shared.
pub open spec fn hit_count(p: Pages, tokens: Seq<i64>, k: int) -> int
    decreases tokens.len() - 256 * k,
{
    if k < 0 || 256 * k + 256 > tokens.len() || !p.by_hash.contains_key(prefix_key(tokens, k)) {
        0
    } else {
        1 + hit_count(p, tokens, k + 1)
    }
}

/// The shared pages for the leading complete pages of `tokens`.
pub open spec fn hits(p: Pages, tokens: Seq<i64>) -> Seq<i32> {
    Seq::new(hit_count(p, tokens, 0) as nat, |k: int| p.by_hash[prefix_key(tokens, k)])
}

/// Every page number in the table is one of a page.
pub open spec fn ranged(p: Pages) -> bool {
    &&& p.hash.len() == p.rc.len()
    &&& forall|i: int| 0 <= i < p.free.len() ==> 0 <= #[trigger] p.free[i] < p.rc.len()
    &&& forall|i: int| 0 <= i < p.reclaimable.len() ==> 0 <= #[trigger] p.reclaimable[i] < p.rc.len()
    &&& forall|h: u128| #[trigger] p.by_hash.contains_key(h) ==> 0 <= p.by_hash[h] < p.rc.len()
}

/// A page table with its settings and counts.
#[verifier::ext_equal]
pub struct Table {
    pub pages: Pages,
    pub size: int,
    /// Prompt tokens found in shared pages, and prompt tokens asked for.
    pub stats: (u64, u64),
    pub sharing: bool,
}

/// A table whose pages were never used.
pub open spec fn new_table(n: nat, sharing: bool) -> Table {
    Table { pages: new_pages(n), size: n as int, stats: (0, 0), sharing }
}

/// What is true of every table.
pub open spec fn table_ok(t: Table) -> bool {
    &&& ranged(t.pages)
    &&& t.pages.rc.len() == t.size
    &&& t.size <= i32::MAX
}

/// A table after a request for the pages of a prompt and `reserve` tokens more, the pages, and
/// how many leading prompt tokens the shared ones hold.
pub open spec fn requested(t: Table, tokens: Seq<i64>, reserve: int) -> (Table, Seq<i32>, int) {
    let need = page_count(tokens.len() + reserve);
    if t.sharing {
        let shared = hits(t.pages, tokens);
        let (after, fresh) = taken_n(acquired_all(t.pages, shared), (need - shared.len()) as nat);
        (
            Table {
                pages: after,
                stats: ((t.stats.0 + 256 * shared.len()) as u64, (t.stats.1 + tokens.len()) as u64),
                ..t
            },
            shared + fresh,
            256 * shared.len() as int,
        )
    } else {
        let (after, fresh) = taken_n(t.pages, need as nat);
        (Table { pages: after, ..t }, fresh, 0)
    }
}

/// Why pages are refused.
#[derive(Clone, Copy, Debug, PartialEq, Eq, Structural)]
pub enum PageError {
    /// More pages are needed than could be handed out.
    Exhausted { need: usize, free: usize },
}

proof fn lemma_place_of(s: Seq<i32>, x: i32)
    ensures
        0 <= place_of(s, x) <= s.len(),
        place_of(s, x) < s.len() ==> s[place_of(s, x)] == x,
        forall|i: int| 0 <= i < place_of(s, x) ==> s[i] != x,
    decreases s.len(),
{
    if s.len() > 0 {
        lemma_place_of(s.drop_last(), x);
        let k = place_of(s.drop_last(), x);
        assert forall|i: int| 0 <= i < s.len() - 1 implies s[i] == s.drop_last()[i] by {}
        if k == s.len() - 1 && s.last() != x {
            assert forall|i: int| 0 <= i < s.len() implies s[i] != x by {
                if i < s.len() - 1 {
                    assert(s.drop_last()[i] != x);
                }
            }
        }
    }
}

proof fn lemma_taken_ranged(p: Pages)
    requires
        ranged(p),
        spare(p) > 0,
    ensures
        ranged(taken(p).0),
        0 <= taken(p).1 < p.rc.len(),
        taken(p).0.rc.len() == p.rc.len(),
        spare(taken(p).0) == spare(p) - 1,
{
    if p.free.len() > 0 {
        assert(p.free[p.free.len() - 1] == p.free.last());
    } else {
        let q = taken(p).0;
        assert forall|i: int| 0 <= i < q.reclaimable.len() implies 0 <= #[trigger] q.reclaimable[i] < q.rc.len() by {
            assert(q.reclaimable[i] == p.reclaimable[i + 1]);
        }
    }
}

proof fn lemma_acquired_ranged(p: Pages, id: i32)
    requires
        ranged(p),
        0 <= id < p.rc.len(),
    ensures
        ranged(acquired(p, id)),
        acquired(p, id).rc.len() == p.rc.len(),
        acquired(p, id).by_hash == p.by_hash,
        spare(p) - 1 <= spare(acquired(p, id)) <= spare(p),
{
    lemma_place_of(p.reclaimable, id);
    let q = acquired(p, id);
    let k = place_of(p.reclaimable, id);
    assert forall|i: int| 0 <= i < q.reclaimable.len() implies 0 <= #[trigger] q.reclaimable[i] < q.rc.len() by {
        if p.rc[id as int] == 0 && k < p.reclaimable.len() {
            if i < k {
                assert(q.reclaimable[i] == p.reclaimable[i]);
            } else {
                assert(q.reclaimable[i] == p.reclaimable[i + 1]);
            }
        } else {
            assert(q.reclaimable[i] == p.reclaimable[i]);
        }
    }
}

/// The page allocator.
pub struct PageTable {
    num_pages: i64,
    free: Vec<i32>,
    rc: Vec<u32>,
    hash: Vec<Option<u128>>,
    by_hash: HashMap<u128, i32>,
    reclaimable: VecDeque<i32>,
    evicted: Vec<(i32, u128)>,
    /// Prompt tokens found in shared pages.
    cached_tokens: u64,
    /// Prompt tokens asked for.
    prompt_tokens: u64,
    /// Whether prefixes are shared.
    dedup: bool,
}

fn key_bytes(k: u128) -> (r: PageHash)
    ensures
        key_of(r) == k,
        r@ == spec_u128_to_le_bytes(k),
{
    proof {
        lemma_auto_spec_u128_to_from_le_bytes();
    }
    let v = u128_to_le_bytes(k);
    hash_from(&v)
}

impl PageTable {
    /// The state.
    pub closed spec fn pages(&self) -> Pages {
        Pages {
            free: self.free@,
            rc: self.rc@,
            hash: self.hash@,
            by_hash: self.by_hash@,
            reclaimable: self.reclaimable@,
            evicted: self.evicted@,
        }
    }

    /// How many pages there are.
    pub closed spec fn size(&self) -> int {
        self.num_pages as int
    }

    /// Prompt tokens found in shared pages, and prompt tokens asked for.
    pub closed spec fn stats(&self) -> (u64, u64) {
        (self.cached_tokens, self.prompt_tokens)
    }

    /// Whether prefixes are shared.
    pub closed spec fn sharing(&self) -> bool {
        self.dedup
    }

    /// The table with its settings and counts.
    pub open spec fn table(&self) -> Table {
        Table { pages: self.pages(), size: self.size(), stats: self.stats(), sharing: self.sharing() }
    }

    /// What is true of every table.
    pub open spec fn inv(&self) -> bool {
        &&& ranged(self.pages())
        &&& self.pages().rc.len() == self.size()
        &&& self.size() <= i32::MAX
    }

    /// A table of free pages; they are handed out in order.
    pub fn new(num_pages: i64) -> (r: PageTable)
        requires
            0 <= num_pages <= i32::MAX,
        ensures
            r.inv(),
            r.size() == num_pages,
            r.pages() == new_pages(num_pages as nat),
            r.stats() == (0u64, 0u64),
            !r.sharing(),
    {
        let mut free: Vec<i32> = Vec::new();
        let mut rc: Vec<u32> = Vec::new();
        let mut hash: Vec<Option<u128>> = Vec::new();
        let mut i: i64 = 0;
        while i < num_pages
            invariant
                0 <= i <= num_pages <= i32::MAX,
                free@ == Seq::new(i as nat, |j: int| (num_pages - 1 - j) as i32),
                rc@ == Seq::new(i as nat, |j: int| 0u32),
                hash@ == Seq::new(i as nat, |j: int| None::<u128>),
            decreases num_pages - i,
        {
            free.push((num_pages - 1 - i) as i32);
            rc.push(0);
            hash.push(None);
            i = i + 1;
            assert(free@ =~= Seq::new(i as nat, |j: int| (num_pages - 1 - j) as i32));
            assert(rc@ =~= Seq::new(i as nat, |j: int| 0u32));
            assert(hash@ =~= Seq::new(i as nat, |j: int| None::<u128>));
        }
        PageTable {
            num_pages,
            free,
            rc,
            hash,
            by_hash: HashMap::new(),
            reclaimable: VecDeque::new(),
            evicted: Vec::new(),
            cached_tokens: 0,
            prompt_tokens: 0,
            dedup: false,
        }
    }

    /// Pages that could be handed out. A shared page costs none of them, so that a request
    /// for no more pages than this is always met.
    pub fn num_free(&self) -> (r: usize)
        requires
            spare(self.pages()) <= usize::MAX,
        ensures
            r == spare(self.pages()),
    {
        self.free.len() + self.reclaimable.len()
    }

    /// How many pages there are.
    pub fn num_pages(&self) -> (r: i64)
        ensures
            r == self.size(),
    {
        self.num_pages
    }

    /// Prompt tokens found in shared pages, and prompt tokens asked for.
    pub fn prefix_stats(&self) -> (r: (u64, u64))
        ensures
            r == self.stats(),
    {
        (self.cached_tokens, self.prompt_tokens)
    }

    /// Take one page for fresh use.
    fn take_one(&mut self) -> (id: i32)
        requires
            old(self).inv(),
            spare(old(self).pages()) > 0,
        ensures
            final(self).inv(),
            (final(self).pages(), id) == taken(old(self).pages()),
            final(self).size() == old(self).size(),
            final(self).stats() == old(self).stats(),
            final(self).sharing() == old(self).sharing(),
    {
        let ghost p = self.pages();
        proof {
            lemma_taken_ranged(p);
        }
        match self.free.pop() {
            Some(id) => {
                self.rc.set(id as usize, 1);
                self.hash.set(id as usize, None);
                assert(self.pages() =~= taken(p).0);
                id
            },
            None => {
                let id = self.reclaimable.pop_front().unwrap();
                assert(id == p.reclaimable[0]);
                assert(self.reclaimable@ =~= p.reclaimable.drop_first());
                if let Some(h) = self.hash[id as usize] {
                    let shared: Option<i32> = match self.by_hash.get(&h) {
                        Some(x) => Some(*x),
                        None => None,
                    };
                    if let Some(x) = shared {
                        if x == id {
                            let _ = self.by_hash.remove(&h);
                        }
                    }
                    self.evicted.push((id, h));
                }
                self.rc.set(id as usize, 1);
                self.hash.set(id as usize, None);
                assert(self.pages() =~= taken(p).0);
                id
            },
        }
    }

    /// One more reference to a page.
    fn acquire(&mut self, phys: i32)
        requires
            old(self).inv(),
            0 <= phys < old(self).pages().rc.len(),
            old(self).pages().rc[phys as int] < u32::MAX,
        ensures
            final(self).inv(),
            final(self).pages() == acquired(old(self).pages(), phys),
            final(self).size() == old(self).size(),
            final(self).stats() == old(self).stats(),
            final(self).sharing() == old(self).sharing(),
    {
        let ghost p = self.pages();
        proof {
            lemma_acquired_ranged(p, phys);
            lemma_place_of(p.reclaimable, phys);
        }
        let n: u32 = self.rc[phys as usize];
        if n == 0 {
            let mut k: usize = 0;
            while k < self.reclaimable.len() && self.reclaimable[k] != phys
                invariant
                    k <= self.reclaimable@.len(),
                    forall|j: int| 0 <= j < k ==> self.reclaimable@[j] != phys,
                decreases self.reclaimable@.len() - k,
            {
                k = k + 1;
            }
            assert(k == place_of(p.reclaimable, phys));
            if k < self.reclaimable.len() {
                let _ = self.reclaimable.remove(k);
            }
        }
        self.rc.set(phys as usize, n + 1);
        assert(self.pages() =~= acquired(p, phys));
    }
}

/// `n` pages taken keep the table in range.
pub proof fn lemma_taken_n_ranged(p: Pages, n: nat)
    requires
        ranged(p),
        n <= spare(p),
    ensures
        ranged(taken_n(p, n).0),
        taken_n(p, n).0.rc.len() == p.rc.len(),
        spare(taken_n(p, n).0) == spare(p) - n,
        taken_n(p, n).1.len() == n,
        forall|i: int| 0 <= i < n ==> 0 <= #[trigger] taken_n(p, n).1[i] < p.rc.len(),
    decreases n,
{
    if n > 0 {
        lemma_taken_n_ranged(p, (n - 1) as nat);
        lemma_taken_ranged(taken_n(p, (n - 1) as nat).0);
        let (q, ids) = taken_n(p, (n - 1) as nat);
        assert forall|i: int| 0 <= i < n implies 0 <= #[trigger] taken_n(p, n).1[i] < p.rc.len() by {
            if i < n - 1 {
                assert(taken_n(p, n).1[i] == ids[i]);
            }
        }
    }
}

pub proof fn lemma_hit_count(p: Pages, tokens: Seq<i64>, k: int)
    requires
        k >= 0,
    ensures
        hit_count(p, tokens, k) >= 0,
        hit_count(p, tokens, k) > 0 ==> 256 * (k + hit_count(p, tokens, k)) <= tokens.len(),
        forall|j: int|
            k <= j < k + hit_count(p, tokens, k) ==> p.by_hash.contains_key(#[trigger] prefix_key(tokens, j)),
    decreases tokens.len() - 256 * k,
{
    if !(256 * k + 256 > tokens.len() || !p.by_hash.contains_key(prefix_key(tokens, k))) {
        lemma_hit_count(p, tokens, k + 1);
    }
}

pub proof fn lemma_acquired_all(p: Pages, ids: Seq<i32>, most: int)
    requires
        ranged(p),
        forall|i: int| 0 <= i < ids.len() ==> 0 <= #[trigger] ids[i] < p.rc.len(),
        forall|i: int| 0 <= i < p.rc.len() ==> #[trigger] p.rc[i] + most <= u32::MAX,
        ids.len() <= most,
    ensures
        ranged(acquired_all(p, ids)),
        acquired_all(p, ids).rc.len() == p.rc.len(),
        acquired_all(p, ids).by_hash == p.by_hash,
        spare(p) - ids.len() <= spare(acquired_all(p, ids)) <= spare(p),
        forall|i: int|
            0 <= i < p.rc.len() ==> p.rc[i] <= #[trigger] acquired_all(p, ids).rc[i] <= p.rc[i] + ids.len(),
    decreases ids.len(),
{
    if ids.len() > 0 {
        let prev = ids.drop_last();
        assert forall|i: int| 0 <= i < prev.len() implies 0 <= #[trigger] prev[i] < p.rc.len() by {
            assert(prev[i] == ids[i]);
        }
        lemma_acquired_all(p, prev, most);
        let q = acquired_all(p, prev);
        let id = ids.last();
        assert(ids[ids.len() - 1] == id);
        lemma_acquired_ranged(q, id);
        assert(q.rc[id as int] <= p.rc[id as int] + prev.len());
        assert forall|i: int| 0 <= i < p.rc.len() implies p.rc[i] <= #[trigger] acquired_all(p, ids).rc[i]
            <= p.rc[i] + ids.len() by {
            assert(p.rc[i] <= q.rc[i] <= p.rc[i] + prev.len());
        }
    }
}

/// What a request for pages for `tokens` and `reserve` more needs of the table: the pages
/// that are not shared can be handed out, and no count runs over.
pub open spec fn can_share(p: Pages, tokens: Seq<i64>, reserve: int) -> bool {
    let shared = hits(p, tokens);
    let need = page_count(tokens.len() + reserve);
    &&& 0 <= need - shared.len() <= spare(acquired_all(p, shared))
    &&& forall|i: int| 0 <= i < p.rc.len() ==> #[trigger] p.rc[i] + shared.len() <= u32::MAX
}

impl PageTable {
    /// Switch prefix sharing on or off.
    pub fn set_dedup(&mut self, on: bool)
        requires
            old(self).inv(),
        ensures
            final(self).inv(),
            final(self).pages() == old(self).pages(),
            final(self).size() == old(self).size(),
            final(self).stats() == old(self).stats(),
            final(self).sharing() == on,
    {
        self.dedup = on;
    }

    /// How many pages could be handed out.
    pub fn free_count(&self) -> (r: u128)
        ensures
            r == spare(self.pages()),
    {
        self.free.len() as u128 + self.reclaimable.len() as u128
    }

    /// How many pages were repurposed since they were last drained.
    pub fn evicted_count(&self) -> (r: usize)
        ensures
            r == self.pages().evicted.len(),
    {
        self.evicted.len()
    }

    /// Whether no page has more than `most` references.
    pub fn counts_below(&self, most: u32) -> (r: bool)
        ensures
            r == forall|i: int| 0 <= i < self.pages().rc.len() ==> #[trigger] self.pages().rc[i] <= most,
    {
        let mut i: usize = 0;
        while i < self.rc.len()
            invariant
                i <= self.rc@.len(),
                forall|j: int| 0 <= j < i ==> #[trigger] self.pages().rc[j] <= most,
            decreases self.rc@.len() - i,
        {
            if self.rc[i] > most {
                assert(!(self.pages().rc[i as int] <= most));
                return false;
            }
            i = i + 1;
        }
        true
    }

    /// Whether prefixes are shared.
    pub fn dedup(&self) -> (r: bool)
        ensures
            r == self.sharing(),
    {
        self.dedup
    }

    fn take(&mut self, n: usize) -> (r: Vec<i32>)
        requires
            old(self).inv(),
            n <= spare(old(self).pages()),
        ensures
            final(self).inv(),
            (final(self).pages(), r@) == taken_n(old(self).pages(), n as nat),
            r@.len() == n,
            forall|i: int| 0 <= i < r@.len() ==> 0 <= #[trigger] r@[i] < old(self).size(),
            final(self).size() == old(self).size(),
            final(self).stats() == old(self).stats(),
            final(self).sharing() == old(self).sharing(),
    {
        let ghost p = self.pages();
        proof {
            lemma_taken_n_ranged(p, n as nat);
        }
        let mut r: Vec<i32> = Vec::new();
        let mut k: usize = 0;
        while k < n
            invariant
                k <= n,
                n <= spare(p),
                ranged(p),
                self.inv(),
                (self.pages(), r@) == taken_n(p, k as nat),
                self.size() == old(self).size(),
                self.stats() == old(self).stats(),
                self.sharing() == old(self).sharing(),
            decreases n - k,
        {
            proof {
                lemma_taken_n_ranged(p, k as nat);
            }
            let id = self.take_one();
            r.push(id);
            k = k + 1;
        }
        r
    }

    /// `n` fresh pages, or an error where the table cannot give so many.
    pub fn alloc_pages(&mut self, n: usize) -> (r: Result<Vec<i32>, PageError>)
        requires
            old(self).inv(),
        ensures
            final(self).inv(),
            final(self).size() == old(self).size(),
            final(self).stats() == old(self).stats(),
            final(self).sharing() == old(self).sharing(),
            match r {
                Ok(ids) => n <= spare(old(self).pages()) && (final(self).pages(), ids@) == taken_n(
                    old(self).pages(),
                    n as nat,
                ) && ids@.len() == n && forall|i: int| 0 <= i < ids@.len() ==> 0 <= #[trigger] ids@[i] < old(self).size(),
                Err(PageError::Exhausted { need, free }) => n > spare(old(self).pages()) && need == n && free
                    == spare(old(self).pages()) && final(self).pages() == old(self).pages(),
            },
    {
        let free: u128 = self.free_count();
        if free < n as u128 {
            return Err(PageError::Exhausted { need: n, free: free as usize });
        }
        Ok(self.take(n))
    }

    /// Pages for a job whose prompt is `prompt_ids` and that may generate `gen_reserve`
    /// tokens more. With prefix sharing on, the leading complete pages whose chained hash
    /// is in the table are shared. Returns the pages, and how many leading prompt tokens
    /// the shared ones hold.
    pub fn alloc_prefix(&mut self, prompt_ids: &[i64], gen_reserve: i64) -> (r: Result<
        (Vec<i32>, i64),
        PageError,
    >)
        requires
            old(self).inv(),
            0 <= prompt_ids@.len() + gen_reserve <= i64::MAX - 255,
            prompt_ids@.len() <= i64::MAX,
            page_count(prompt_ids@.len() + gen_reserve) <= usize::MAX,
            old(self).sharing() ==> can_share(old(self).pages(), prompt_ids@, gen_reserve as int),
            old(self).sharing() ==> old(self).stats().0 + prompt_ids@.len() <= u64::MAX,
            old(self).sharing() ==> old(self).stats().1 + prompt_ids@.len() <= u64::MAX,
        ensures
            final(self).inv(),
            final(self).size() == old(self).size(),
            final(self).sharing() == old(self).sharing(),
            r matches Ok((ids, matched)) ==> ids@.len() == page_count(prompt_ids@.len() + gen_reserve) && forall|
                i: int,
            | 0 <= i < ids@.len() ==> 0 <= #[trigger] ids@[i] < old(self).size(),
            !old(self).sharing() ==> final(self).stats() == old(self).stats() && match r {
                Ok((ids, matched)) => matched == 0 && page_count(prompt_ids@.len() + gen_reserve) <= spare(
                    old(self).pages(),
                ) && (final(self).pages(), ids@) == taken_n(
                    old(self).pages(),
                    page_count(prompt_ids@.len() + gen_reserve) as nat,
                ),
                Err(PageError::Exhausted { need, free }) => need == page_count(
                    prompt_ids@.len() + gen_reserve,
                ) && free == spare(old(self).pages()) && free < need && final(self).pages() == old(self).pages(),
            },
            old(self).sharing() ==> {
                let shared = hits(old(self).pages(), prompt_ids@);
                let need = page_count(prompt_ids@.len() + gen_reserve);
                let (after, fresh) = taken_n(
                    acquired_all(old(self).pages(), shared),
                    (need - shared.len()) as nat,
                );
                &&& r matches Ok((ids, matched))
                &&& ids@ == shared + fresh
                &&& matched == 256 * shared.len()
                &&& final(self).pages() == after
                &&& final(self).stats() == (
                    (old(self).stats().0 + 256 * shared.len()) as u64,
                    (old(self).stats().1 + prompt_ids@.len()) as u64,
                )
            },
    {
        let ghost p = self.pages();
        let ghost toks = prompt_ids@;
        let need: usize = pages_for(prompt_ids.len() as i64 + gen_reserve) as usize;
        if !self.dedup {
            return match self.alloc_pages(need) {
                Ok(ids) => Ok((ids, 0)),
                Err(e) => Err(e),
            };
        }
        proof {
            lemma_hit_count(p, toks, 0);
        }
        let full: usize = prompt_ids.len() / 256;
        let mut found: Vec<i32> = Vec::new();
        let mut prev: Option<PageHash> = None;
        let mut k: usize = 0;
        let ghost total = hit_count(p, toks, 0);
        let ghost want = hits(p, toks);
        while k < full
            invariant
                k <= full,
                full == prompt_ids@.len() / 256,
                toks == prompt_ids@,
                self.pages() == p,
                total == hit_count(p, toks, 0),
                total == k + hit_count(p, toks, k as int),
                want == hits(p, toks),
                bytes_opt(prev) == prefix_bytes(toks, k as int),
                found@ == Seq::new(k as nat, |j: int| p.by_hash[prefix_key(toks, j)]),
            ensures
                total == k,
                found@ == Seq::new(k as nat, |j: int| p.by_hash[prefix_key(toks, j)]),
            decreases full - k,
        {
            let len: usize = prompt_ids.len();
            assert(k * 256 + 256 <= len);
            let chunk = vstd::slice::slice_subrange(prompt_ids, k * 256, k * 256 + 256);
            assert(chunk@ =~= page_tokens(toks, k as int));
            let h = chain_hash(prev, chunk);
            let key = u128_from_le_bytes(h.as_slice());
            assert(key == prefix_key(toks, k as int));
            match self.by_hash.get(&key) {
                Some(id) => {
                    found.push(*id);
                    prev = Some(h);
                },
                None => {
                    break;
                },
            }
            k = k + 1;
            assert(found@ =~= Seq::new(k as nat, |j: int| p.by_hash[prefix_key(toks, j)]));
        }
        assert(found@ =~= want);
        proof {
            assert forall|i: int| 0 <= i < want.len() implies 0 <= #[trigger] want[i] < p.rc.len() by {
                assert(p.by_hash.contains_key(prefix_key(toks, i)));
            }
            assert(want.len() <= toks.len() / 256);
        }
        let mut i: usize = 0;
        assert(want.take(0) =~= seq![]);
        while i < found.len()
            invariant
                i <= found@.len(),
                found@ == want,
                ranged(p),
                self.inv(),
                self.size() == old(self).size(),
                self.stats() == old(self).stats(),
                self.sharing() == old(self).sharing(),
                self.pages() == acquired_all(p, want.take(i as int)),
                forall|j: int| 0 <= j < want.len() ==> 0 <= #[trigger] want[j] < p.rc.len(),
                forall|j: int| 0 <= j < p.rc.len() ==> #[trigger] p.rc[j] + want.len() <= u32::MAX,
            decreases found@.len() - i,
        {
            proof {
                let t = want.take(i as int);
                assert forall|j: int| 0 <= j < t.len() implies 0 <= #[trigger] t[j] < p.rc.len() by {
                    assert(t[j] == want[j]);
                }
                lemma_acquired_all(p, t, want.len() as int);
                assert(want.take(i + 1).drop_last() =~= t);
                assert(want.take(i + 1).last() == want[i as int]);
                assert(0 <= want[i as int] < p.rc.len());
                assert(p.rc[want[i as int] as int] + want.len() <= u32::MAX);
            }
            self.acquire(found[i]);
            i = i + 1;
        }
        proof {
            assert(want.take(i as int) =~= want);
            lemma_acquired_all(p, want, want.len() as int);
        }
        let mut fresh = self.take(need - found.len());
        let matched: i64 = found.len() as i64 * 256;
        self.cached_tokens = self.cached_tokens + matched as u64;
        self.prompt_tokens = self.prompt_tokens + prompt_ids.len() as u64;
        let ghost rest = fresh@;
        let mut block = found;
        block.append(&mut fresh);
        assert forall|i: int| 0 <= i < block@.len() implies 0 <= #[trigger] block@[i] < self.size() by {
            if i < want.len() {
                assert(block@[i] == want[i]);
            } else {
                assert(block@[i] == rest[i - want.len()]);
            }
        }
        Ok((block, matched))
    }

    /// Give a page the chained hash of its tokens, so that later jobs can share it. Nothing
    /// happens where the page has a hash or the tokens are not a whole page.
    pub fn register_page_hash(&mut self, phys: i32, prev: Option<PageHash>, token_ids: &[i64])
        requires
            old(self).inv(),
            0 <= phys < old(self).size(),
        ensures
            final(self).inv(),
            final(self).size() == old(self).size(),
            final(self).stats() == old(self).stats(),
            final(self).sharing() == old(self).sharing(),
            final(self).pages() == if old(self).pages().hash[phys as int] is Some || token_ids@.len() != 256 {
                old(self).pages()
            } else {
                hashed(
                    old(self).pages(),
                    phys,
                    spec_u128_from_le_bytes(chained(bytes_opt(prev), token_ids@)),
                )
            },
    {
        if self.hash[phys as usize].is_some() || token_ids.len() != 256 {
            return;
        }
        let h = chain_hash(prev, token_ids);
        self.register_restored(phys, h);
    }

    /// The hash of a page.
    pub fn page_hash(&self, phys: i32) -> (r: Option<PageHash>)
        requires
            self.inv(),
            0 <= phys < self.size(),
        ensures
            match r {
                Some(h) => self.pages().hash[phys as int] == Some(key_of(h)),
                None => self.pages().hash[phys as int] is None,
            },
    {
        match self.hash[phys as usize] {
            Some(k) => Some(key_bytes(k)),
            None => None,
        }
    }

    /// The hashed pages repurposed since the last call, with the hashes that they had.
    pub fn drain_evicted(&mut self) -> (r: Vec<(i32, PageHash)>)
        requires
            old(self).inv(),
        ensures
            final(self).inv(),
            final(self).size() == old(self).size(),
            final(self).stats() == old(self).stats(),
            final(self).sharing() == old(self).sharing(),
            final(self).pages() == (Pages { evicted: seq![], ..old(self).pages() }),
            r@.len() == old(self).pages().evicted.len(),
            forall|i: int|
                0 <= i < r@.len() ==> (#[trigger] r@[i]).0 == old(self).pages().evicted[i].0 && key_of(r@[i].1)
                    == old(self).pages().evicted[i].1,
    {
        let ghost p = self.pages();
        let mut r: Vec<(i32, PageHash)> = Vec::new();
        let mut i: usize = 0;
        while i < self.evicted.len()
            invariant
                i <= self.evicted@.len(),
                self.pages() == p,
                r@.len() == i,
                forall|j: int|
                    0 <= j < i ==> (#[trigger] r@[j]).0 == p.evicted[j].0 && key_of(r@[j].1) == p.evicted[j].1,
            decreases self.evicted@.len() - i,
        {
            let (id, k) = self.evicted[i];
            r.push((id, key_bytes(k)));
            i = i + 1;
        }
        self.evicted.clear();
        assert(self.pages() =~= (Pages { evicted: seq![], ..p }));
        r
    }

    /// Give a page the hash of the content that was just restored into it.
    pub fn register_restored(&mut self, phys: i32, h: PageHash)
        requires
            old(self).inv(),
            0 <= phys < old(self).size(),
        ensures
            final(self).inv(),
            final(self).size() == old(self).size(),
            final(self).stats() == old(self).stats(),
            final(self).sharing() == old(self).sharing(),
            final(self).pages() == hashed(old(self).pages(), phys, key_of(h)),
    {
        let ghost p = self.pages();
        let key = u128_from_le_bytes(h.as_slice());
        self.hash.set(phys as usize, Some(key));
        if !self.by_hash.contains_key(&key) {
            self.by_hash.insert(key, phys);
        }
        assert(self.pages() =~= hashed(p, phys, key));
    }

    /// Give back one reference to each page.
    pub fn release(&mut self, pages: &[i32])
        requires
            old(self).inv(),
            forall|i: int| 0 <= i < pages@.len() ==> 0 <= #[trigger] pages@[i] < old(self).size(),
        ensures
            final(self).inv(),
            final(self).size() == old(self).size(),
            final(self).stats() == old(self).stats(),
            final(self).sharing() == old(self).sharing(),
            final(self).pages() == released(old(self).pages(), pages@),
    {
        let ghost p = self.pages();
        let mut i: usize = 0;
        assert(pages@.take(0) =~= seq![]);
        while i < pages.len()
            invariant
                i <= pages@.len(),
                forall|j: int| 0 <= j < pages@.len() ==> 0 <= #[trigger] pages@[j] < old(self).size(),
                self.inv(),
                self.size() == old(self).size(),
                self.stats() == old(self).stats(),
                self.sharing() == old(self).sharing(),
                self.pages() == released(p, pages@.take(i as int)),
            decreases pages@.len() - i,
        {
            let ghost q = self.pages();
            let id: i32 = pages[i];
            let mut n: u32 = self.rc[id as usize];
            if n > 0 {
                n = n - 1;
                self.rc.set(id as usize, n);
            }
            if n == 0 {
                if self.hash[id as usize].is_some() {
                    self.reclaimable.push_back(id);
                } else {
                    self.free.push(id);
                }
            }
            proof {
                assert(pages@.take(i + 1).drop_last() =~= pages@.take(i as int));
                assert(self.pages() =~= released_one(q, id));
            }
            i = i + 1;
        }
        assert(pages@.take(i as int) =~= pages@);
    }
}

} // verus!
