//! A grammar filter attached to a job: trigger activation, a journal that can be rewound,
//! and cached masks.
use vstd::prelude::*;
use vstd::utf8::{encode_utf8, encode_utf8_decode_utf8, encode_utf8_valid_utf8};
use crate::filter::automaton::{Elem, Frame};
use crate::filter::mask::{words_for, TokenMask};
use crate::filter::matcher::{all_done, byte_run, feed_all, initial, state_hash, Matcher};
use crate::filter::trie::{findable, piece_bytes, VocabTrie};
use crate::recent::{lemma_renewed, renewed};
use std::collections::HashMap;
use std::sync::Arc;

verus! {

broadcast use vstd::std_specs::hash::group_hash_axioms;

/// What a fed token did to a filter.
#[derive(Clone, Copy, PartialEq, Eq, Structural)]
pub enum Fj {
    /// Nothing: the filter was inactive.
    Pass,
    /// It activated the filter.
    Trigger,
    /// The grammar took it.
    Accept,
    /// The grammar took it and was complete.
    Complete,
}

/// A filter without its caches.
#[verifier::ext_equal]
pub struct Filtering {
    pub rules: Seq<Seq<Elem>>,
    pub root: int,
    pub stacks: Seq<Seq<Frame>>,
    pub dead: bool,
    pub table: Seq<Seq<char>>,
    pub width: int,
    pub trigger: Option<i64>,
    pub stops: bool,
    pub active: bool,
    pub journal: Seq<(Fj, i64)>,
}

/// The cached masks and mask rows, by state hash, and the hashes in the order in which they
/// were last used.
#[verifier::ext_equal]
pub struct Caches {
    pub masks: Map<u64, Set<int>>,
    pub rows: Map<u64, Seq<bool>>,
    pub order: Seq<u64>,
}

/// The piece of a token; empty past the table.
pub open spec fn piece_at(table: Seq<Seq<char>>, tok: i64) -> Seq<char> {
    if 0 <= tok < table.len() {
        table[tok as int]
    } else {
        seq![]
    }
}

/// A matcher's branches, and whether it is dead, after a text.
pub open spec fn eat(rs: Seq<Seq<Elem>>, stacks: Seq<Seq<Frame>>, dead: bool, text: Seq<char>) -> (
    Seq<Seq<Frame>>,
    bool,
) {
    if dead || all_done(stacks) || text.len() == 0 {
        (stacks, dead)
    } else {
        feed_all(rs, stacks, text)
    }
}

/// Whether the grammar is complete.
pub open spec fn finished(f: Filtering) -> bool {
    !f.dead && all_done(f.stacks)
}

/// Whether the filter constrains the next token.
pub open spec fn live(f: Filtering) -> bool {
    f.active && !finished(f)
}

/// The filter at the grammar's start.
pub open spec fn restarted(f: Filtering) -> Filtering {
    Filtering { stacks: initial(f.rules, f.root), dead: false, ..f }
}

/// The filter after the grammar took the piece of a token.
pub open spec fn eaten(f: Filtering, tok: i64) -> Filtering {
    let (stacks, dead) = eat(f.rules, f.stacks, f.dead, piece_at(f.table, tok));
    Filtering { stacks, dead, ..f }
}

/// What a token does to a filter.
pub open spec fn effect(f: Filtering, tok: i64) -> Fj {
    if !f.active {
        if f.trigger == Some(tok) {
            Fj::Trigger
        } else {
            Fj::Pass
        }
    } else if finished(eaten(f, tok)) {
        Fj::Complete
    } else {
        Fj::Accept
    }
}

/// The filter after a journal entry.
pub open spec fn replayed_one(f: Filtering, e: (Fj, i64)) -> Filtering {
    match e.0 {
        Fj::Pass => f,
        Fj::Trigger => Filtering { active: true, ..restarted(f) },
        Fj::Accept => eaten(f, e.1),
        Fj::Complete => Filtering { active: false, ..eaten(f, e.1) },
    }
}

/// The filter after a fed token.
pub open spec fn fed(f: Filtering, tok: i64) -> Filtering {
    let e = (effect(f, tok), tok);
    Filtering { journal: f.journal.push(e), ..replayed_one(f, e) }
}

/// A filter before any token.
pub open spec fn fresh(f: Filtering) -> Filtering {
    Filtering { active: f.trigger is None, ..restarted(f) }
}

/// A fresh filter after the entries of a journal.
pub open spec fn replay(f: Filtering, journal: Seq<(Fj, i64)>) -> Filtering
    decreases journal.len(),
{
    if journal.len() == 0 {
        fresh(f)
    } else {
        replayed_one(replay(f, journal.drop_last()), journal.last())
    }
}

/// Whether the filter is where its journal leads.
pub open spec fn follows_journal(f: Filtering) -> bool {
    f == replay(f, f.journal)
}

/// The filter rolled back over its last `n` tokens.
pub open spec fn rewound(f: Filtering, n: nat) -> Filtering {
    if n == 0 {
        f
    } else {
        let keep = if n <= f.journal.len() {
            f.journal.len() - n
        } else {
            0
        };
        replay(Filtering { journal: f.journal.take(keep), ..f }, f.journal.take(keep))
    }
}

/// The tokens whose pieces the grammar takes from the branches `stacks`.
pub open spec fn allowed_from(f: Filtering, stacks: Seq<Seq<Frame>>) -> Set<int> {
    Set::new(
        |id: int|
            id < f.width && findable(f.table, id) && byte_run(f.rules, stacks, seq![], piece_bytes(f.table, id))
                is Some,
    )
}

/// Every token.
pub open spec fn every(width: int) -> Set<int> {
    Set::new(|id: int| 0 <= id < width)
}

/// The tokens that the filter allows now. A state whose hash is cached is taken for the
/// state that was cached.
pub open spec fn allowed_now(f: Filtering, c: Caches) -> Set<int> {
    let sig = state_hash(f.stacks);
    if !live(f) {
        every(f.width)
    } else if c.masks.contains_key(sig) {
        c.masks[sig]
    } else {
        allowed_from(f, f.stacks)
    }
}

/// One flag per id below `width`.
pub open spec fn row_of(ids: Set<int>, width: nat) -> Seq<bool> {
    Seq::new(width, |i: int| ids.contains(i))
}

/// The caches after a state hash was used: where there are too many, the one that was not used
/// for the longest leaves.
pub open spec fn touched(c: Caches, sig: u64) -> Caches {
    let order = renewed(c.order, sig);
    if order.len() <= 128 {
        Caches { order, ..c }
    } else {
        Caches { masks: c.masks.remove(order[0]), rows: c.rows.remove(order[0]), order: order.drop_first() }
    }
}

/// The caches after the mask was asked for.
pub open spec fn after_mask(f: Filtering, c: Caches) -> Caches {
    let sig = state_hash(f.stacks);
    if !live(f) {
        c
    } else {
        touched(Caches { masks: c.masks.insert(sig, allowed_now(f, c)), ..c }, sig)
    }
}

/// The row of the current state, at the width asked for.
pub open spec fn row_now(f: Filtering, c: Caches, width: nat) -> Option<Seq<bool>> {
    if !live(f) {
        None
    } else {
        Some(row_of(allowed_now(f, c), width))
    }
}

/// The caches after the row was asked for.
pub open spec fn after_row(f: Filtering, c: Caches, width: nat) -> Caches {
    let d = after_mask(f, c);
    if !live(f) {
        c
    } else {
        Caches { rows: d.rows.insert(state_hash(f.stacks), row_of(allowed_now(f, c), width)), ..d }
    }
}

/// Whether a cached mask is that of a state with the hash.
pub open spec fn honest_mask(f: Filtering, sig: u64, ids: Set<int>) -> bool {
    exists|stacks: Seq<Seq<Frame>>| #[trigger] state_hash(stacks) == sig && ids == allowed_from(f, stacks)
}

/// The caches are bounded; every mask in them is that of a state with the hash, and every row
/// that of a mask.
pub open spec fn caches_ok(f: Filtering, c: Caches) -> bool {
    &&& c.order.len() <= 128
    &&& c.order.no_duplicates()
    &&& forall|sig: u64| #[trigger]
        c.masks.contains_key(sig) ==> c.order.contains(sig) && honest_mask(f, sig, c.masks[sig])
    &&& forall|sig: u64| #[trigger]
        c.rows.contains_key(sig) ==> c.masks.contains_key(sig) && c.rows[sig] == row_of(
            c.masks[sig],
            c.rows[sig].len(),
        )
}

/// One constrained-decoding filter attached to a job: a grammar matcher with trigger-token
/// activation and a journal that can be rewound.
pub struct FilterState {
    matcher: Matcher,
    trie: Arc<VocabTrie>,
    trigger_token: Option<i64>,
    eos_after_completed: bool,
    active: bool,
    journal: Vec<(Fj, i64)>,
    mask_cache: HashMap<u64, TokenMask>,
    add_cache: HashMap<u64, Vec<bool>>,
    cache_order: Vec<u64>,
}

fn copy_row(v: &Vec<bool>) -> (r: Vec<bool>)
    ensures
        r@ == v@,
{
    let mut r: Vec<bool> = Vec::new();
    let mut i: usize = 0;
    while i < v.len()
        invariant
            i <= v@.len(),
            r@ == v@.take(i as int),
        decreases v@.len() - i,
    {
        r.push(v[i]);
        i = i + 1;
        assert(r@ =~= v@.take(i as int));
    }
    assert(r@ =~= v@);
    r
}

impl FilterState {
    /// The state without the caches.
    pub closed spec fn now(&self) -> Filtering {
        Filtering {
            rules: self.matcher.rules(),
            root: self.matcher.root(),
            stacks: self.matcher.stacks(),
            dead: self.matcher.dead(),
            table: self.trie.table(),
            width: self.trie.width(),
            trigger: self.trigger_token,
            stops: self.eos_after_completed,
            active: self.active,
            journal: self.journal@,
        }
    }

    /// The caches.
    pub closed spec fn caches(&self) -> Caches {
        Caches {
            masks: self.mask_cache@.map_values(|m: TokenMask| m.ids()),
            rows: self.add_cache@.map_values(|r: Vec<bool>| r@),
            order: self.cache_order@,
        }
    }

    spec fn masks_wf(&self) -> bool {
        forall|sig: u64| #[trigger]
            self.mask_cache@.contains_key(sig) ==> self.mask_cache@[sig].wf() && self.mask_cache@[sig].width()
                == self.trie.width()
    }

    /// What every filter keeps.
    pub closed spec fn inv(&self) -> bool {
        &&& self.matcher.inv()
        &&& self.trie.inv()
        &&& self.masks_wf()
        &&& caches_ok(self.now(), self.caches())
    }

    /// A filter that waits for `trigger_token`, or is active at once where there is none.
    pub fn new(
        matcher: Matcher,
        trie: Arc<VocabTrie>,
        trigger_token: Option<i64>,
        eos_after_completed: bool,
    ) -> (r: FilterState)
        requires
            matcher.inv(),
            trie.inv(),
        ensures
            r.inv(),
            r.now() == (Filtering {
                rules: matcher.rules(),
                root: matcher.root(),
                stacks: matcher.stacks(),
                dead: matcher.dead(),
                table: trie.table(),
                width: trie.width(),
                trigger: trigger_token,
                stops: eos_after_completed,
                active: trigger_token is None,
                journal: seq![],
            }),
            r.caches() == (Caches { masks: Map::empty(), rows: Map::empty(), order: seq![] }),
    {
        let active = trigger_token.is_none();
        let r = FilterState {
            matcher,
            trie,
            trigger_token,
            eos_after_completed,
            active,
            journal: Vec::new(),
            mask_cache: HashMap::new(),
            add_cache: HashMap::new(),
            cache_order: Vec::new(),
        };
        assert(r.caches() =~= (Caches { masks: Map::empty(), rows: Map::empty(), order: seq![] }));
        r
    }

    /// Whether the filter constrains the next token.
    pub fn is_active(&self) -> (r: bool)
        ensures
            r == live(self.now()),
    {
        self.active && !self.matcher.is_complete()
    }

    /// Where a hash is in the order of use.
    fn queued(&self, sig: u64) -> (r: Option<usize>)
        ensures
            match r {
                Some(i) => i < self.cache_order@.len() && self.cache_order@[i as int] == sig,
                None => !self.cache_order@.contains(sig),
            },
    {
        let mut i: usize = 0;
        while i < self.cache_order.len()
            invariant
                i <= self.cache_order@.len(),
                forall|j: int| 0 <= j < i ==> self.cache_order@[j] != sig,
            decreases self.cache_order@.len() - i,
        {
            if self.cache_order[i] == sig {
                return Some(i);
            }
            i = i + 1;
        }
        None
    }

    fn touch(&mut self, sig: u64)
        requires
            old(self).caches().order.no_duplicates(),
        ensures
            final(self).now() == old(self).now(),
            final(self).caches() == touched(old(self).caches(), sig),
            final(self).matcher == old(self).matcher,
            final(self).trie == old(self).trie,
            old(self).masks_wf() ==> final(self).masks_wf(),
    {
        let ghost c = self.caches();
        if let Some(i) = self.queued(sig) {
            proof {
                assert(c.order[i as int] == sig);
                assert(c.order[c.order.index_of(sig)] == sig);
            }
            self.cache_order.remove(i);
        }
        self.cache_order.push(sig);
        assert(self.cache_order@ =~= renewed(c.order, sig));
        if self.cache_order.len() > 128 {
            let gone: u64 = self.cache_order.remove(0);
            assert(self.cache_order@ =~= renewed(c.order, sig).drop_first());
            self.mask_cache.remove(&gone);
            self.add_cache.remove(&gone);
        }
        assert(self.caches() =~= touched(c, sig));
    }

    /// The tokens allowed now; all of them while the filter is inactive.
    pub fn mask(&mut self) -> (r: TokenMask)
        requires
            old(self).inv(),
        ensures
            final(self).inv(),
            r.wf(),
            r.width() == old(self).now().width,
            r.ids() == allowed_now(old(self).now(), old(self).caches()),
            final(self).now() == old(self).now(),
            final(self).caches() == after_mask(old(self).now(), old(self).caches()),
    {
        let ghost f = self.now();
        let ghost c = self.caches();
        if !self.is_active() {
            let m = TokenMask::all_allowed(self.trie.vocab());
            assert(m.ids() =~= every(f.width));
            return m;
        }
        let sig = self.matcher.signature();
        let known: Option<TokenMask> = match self.mask_cache.get(&sig) {
            Some(m) => Some(m.duplicate()),
            None => None,
        };
        if let Some(m) = known {
            assert(c.masks.contains_key(sig));
            assert(m.ids() =~= c.masks[sig]);
            self.touch(sig);
            proof {
                assert(c.masks.insert(sig, c.masks[sig]) =~= c.masks);
                lemma_caches_mask(f, c, sig, c.masks[sig]);
            }
            return m;
        }
        let mut m = TokenMask::all_denied(self.trie.vocab());
        let acc = self.matcher.acceptor();
        self.trie.collect_allowed(&acc, &mut m);
        proof {
            assert forall|id: int| m.has(id) == allowed_from(f, f.stacks).contains(id) by {
                assert(m.has(id) == (id < m.width() && self.trie.finds(id) && crate::filter::acceptor::ByteAcceptor::accepts(&acc, piece_bytes(
                    self.trie.table(),
                    id,
                ))));
            }
            assert(m.ids() =~= allowed_from(f, f.stacks));
        }
        let copy = m.duplicate();
        assert(copy.ids() =~= m.ids());
        self.mask_cache.insert(sig, copy);
        let ghost d = Caches { masks: c.masks.insert(sig, allowed_from(f, f.stacks)), ..c };
        assert(self.caches() =~= d);
        self.touch(sig);
        proof {
            assert(honest_mask(f, sig, allowed_from(f, f.stacks)));
            lemma_caches_mask(f, c, sig, allowed_from(f, f.stacks));
        }
        m
    }

    /// One flag per id below `width` for the current state, or `None` while the filter is
    /// inactive.
    pub fn additive(&mut self, width: usize) -> (r: Option<Vec<bool>>)
        requires
            old(self).inv(),
        ensures
            final(self).inv(),
            match r {
                Some(row) => row_now(old(self).now(), old(self).caches(), width as nat) == Some(row@),
                None => row_now(old(self).now(), old(self).caches(), width as nat) is None,
            },
            final(self).now() == old(self).now(),
            final(self).caches() == after_row(old(self).now(), old(self).caches(), width as nat),
    {
        let ghost f = self.now();
        let ghost c = self.caches();
        if !self.is_active() {
            return None;
        }
        let sig = self.matcher.signature();
        let known: Option<Vec<bool>> = match self.add_cache.get(&sig) {
            Some(t) => if t.len() == width {
                Some(copy_row(t))
            } else {
                None
            },
            None => None,
        };
        if let Some(row) = known {
            assert(c.rows.contains_key(sig));
            assert(row@ == row_of(allowed_now(f, c), width as nat));
            self.touch(sig);
            proof {
                assert(c.masks.insert(sig, allowed_now(f, c)) =~= c.masks);
                lemma_caches_mask(f, c, sig, c.masks[sig]);
                lemma_kept(c, sig);
                let d = after_mask(f, c);
                assert(d.rows.insert(sig, row@) =~= d.rows);
            }
            return Some(row);
        }
        let m = self.mask();
        let row = m.to_row(width);
        assert(row@ =~= row_of(allowed_now(f, c), width as nat));
        let ghost d = self.caches();
        self.add_cache.insert(sig, copy_row(&row));
        assert(self.caches() =~= (Caches { rows: d.rows.insert(sig, row@), ..d }));
        proof {
            lemma_kept(Caches { masks: c.masks.insert(sig, allowed_now(f, c)), ..c }, sig);
            assert(d.masks[sig] == allowed_now(f, c));
        }
        Some(row)
    }

    fn eat_piece(&mut self, tok: i64)
        requires
            old(self).inv(),
        ensures
            final(self).inv(),
            final(self).now() == eaten(old(self).now(), tok),
            final(self).caches() == old(self).caches(),
    {
        let ghost f = self.now();
        let piece = self.trie.piece(tok);
        let ghost text = piece@;
        let bytes = piece.as_bytes();
        proof {
            assert(bytes@ == encode_utf8(text));
            encode_utf8_valid_utf8(text);
            encode_utf8_decode_utf8(text);
            if text.len() == 0 {
                assert(encode_utf8(text).len() == 0);
            } else {
                vstd::utf8::encode_utf8_first_scalar(text);
            }
        }
        self.matcher.accept_bytes(bytes);
        assert(self.now() =~= eaten(f, tok));
        assert(self.caches() =~= old(self).caches());
        proof {
            lemma_caches_move(f, self.now(), self.caches());
        }
    }

    /// Advance on an emitted token. Returns whether the filter is complete and the job
    /// should stop for that.
    pub fn feed(&mut self, tok: i64) -> (r: bool)
        requires
            old(self).inv(),
        ensures
            final(self).inv(),
            final(self).now() == fed(old(self).now(), tok),
            final(self).caches() == old(self).caches(),
            r == (effect(old(self).now(), tok) == Fj::Complete && old(self).now().stops),
            follows_journal(old(self).now()) ==> follows_journal(final(self).now()),
    {
        let ghost f = self.now();
        proof {
            if follows_journal(f) {
                feeding_follows_the_journal(f, tok);
            }
        }
        if !self.active {
            let hit = match self.trigger_token {
                Some(t) => t == tok,
                None => false,
            };
            if hit {
                self.active = true;
                self.matcher.reset();
                self.journal.push((Fj::Trigger, tok));
            } else {
                self.journal.push((Fj::Pass, tok));
            }
            proof {
                assert(self.now() =~= fed(f, tok));
                assert(self.caches() =~= old(self).caches());
                lemma_caches_move(f, self.now(), self.caches());
            }
            return false;
        }
        self.eat_piece(tok);
        if self.matcher.is_complete() {
            self.active = false;
            self.journal.push((Fj::Complete, tok));
            proof {
                assert(self.now() =~= fed(f, tok));
                assert(self.caches() =~= old(self).caches());
                lemma_caches_move(f, self.now(), self.caches());
            }
            return self.eos_after_completed;
        }
        self.journal.push((Fj::Accept, tok));
        proof {
            assert(self.now() =~= fed(f, tok));
            assert(self.caches() =~= old(self).caches());
            lemma_caches_move(f, self.now(), self.caches());
        }
        false
    }

    /// Roll the filter back over the last `n` fed tokens.
    pub fn rewind(&mut self, n: usize)
        requires
            old(self).inv(),
        ensures
            final(self).inv(),
            final(self).now() == rewound(old(self).now(), n as nat),
            final(self).caches() == old(self).caches(),
            n > 0 || follows_journal(old(self).now()) ==> follows_journal(final(self).now()),
    {
        if n == 0 {
            return;
        }
        let ghost f = self.now();
        let len: usize = self.journal.len();
        let keep: usize = if n <= len {
            len - n
        } else {
            0
        };
        self.journal.truncate(keep);
        let ghost g = self.now();
        proof {
            assert(g =~= (Filtering { journal: f.journal.take(keep as int), ..f }));
            assert(self.caches() =~= old(self).caches());
            lemma_caches_move(f, g, self.caches());
        }
        self.rebuild();
        proof {
            lemma_replay_frame(g, g.journal);
            lemma_replay_only_frame(g, self.now(), g.journal);
        }
    }

    fn rebuild(&mut self)
        requires
            old(self).inv(),
        ensures
            final(self).inv(),
            final(self).now() == replay(old(self).now(), old(self).now().journal),
            final(self).caches() == old(self).caches(),
    {
        let ghost f = self.now();
        let ghost j = self.journal@;
        self.active = self.trigger_token.is_none();
        self.matcher.reset();
        let mut i: usize = 0;
        proof {
            assert(j.take(0) =~= seq![]);
            assert(self.now() =~= replay(f, j.take(0)));
            assert(self.caches() =~= old(self).caches());
            lemma_caches_move(f, self.now(), self.caches());
        }
        while i < self.journal.len()
            invariant
                i <= self.journal@.len(),
                self.journal@ == j,
                f.journal == j,
                self.inv(),
                self.caches() == old(self).caches(),
                self.now() == replay(f, j.take(i as int)),
            decreases self.journal@.len() - i,
        {
            let (e, tok) = self.journal[i];
            let ghost g = self.now();
            match e {
                Fj::Trigger => {
                    self.active = true;
                    self.matcher.reset();
                },
                Fj::Accept => {
                    self.eat_piece(tok);
                },
                Fj::Complete => {
                    self.eat_piece(tok);
                    self.active = false;
                },
                Fj::Pass => {},
            }
            proof {
                assert(j.take(i + 1).drop_last() =~= j.take(i as int));
                assert(j.take(i + 1).last() == (e, tok));
                assert(self.now() =~= replayed_one(g, (e, tok)));
                assert(self.caches() =~= old(self).caches());
                lemma_replay_frame(f, j.take(i + 1));
                lemma_caches_move(g, self.now(), self.caches());
            }
            i = i + 1;
        }
        assert(j.take(i as int) =~= j);
    }
}

/// What stays the same while a filter is replayed.
proof fn lemma_replay_frame(f: Filtering, j: Seq<(Fj, i64)>)
    ensures
        replay(f, j).rules == f.rules,
        replay(f, j).root == f.root,
        replay(f, j).table == f.table,
        replay(f, j).width == f.width,
        replay(f, j).trigger == f.trigger,
        replay(f, j).stops == f.stops,
        replay(f, j).journal == f.journal,
    decreases j.len(),
{
    if j.len() > 0 {
        lemma_replay_frame(f, j.drop_last());
    }
}

/// A replay does not depend on the branches, the activity or the journal from which it
/// starts, but for the journal in its result.
proof fn lemma_replay_only_frame(f: Filtering, g: Filtering, j: Seq<(Fj, i64)>)
    requires
        f.rules == g.rules,
        f.root == g.root,
        f.table == g.table,
        f.width == g.width,
        f.trigger == g.trigger,
        f.stops == g.stops,
    ensures
        replay(g, j) == (Filtering { journal: g.journal, ..replay(f, j) }),
    decreases j.len(),
{
    if j.len() > 0 {
        lemma_replay_only_frame(f, g, j.drop_last());
    }
}

/// Feeding a token leads a filter where its journal leads.
pub proof fn feeding_follows_the_journal(f: Filtering, tok: i64)
    requires
        follows_journal(f),
    ensures
        follows_journal(fed(f, tok)),
{
    let g = fed(f, tok);
    assert(g.journal.drop_last() =~= f.journal);
    lemma_replay_only_frame(f, g, f.journal);
}

proof fn lemma_allowed_same(f: Filtering, g: Filtering, stacks: Seq<Seq<Frame>>)
    requires
        f.rules == g.rules,
        f.table == g.table,
        f.width == g.width,
    ensures
        allowed_from(f, stacks) == allowed_from(g, stacks),
{
    assert(allowed_from(f, stacks) =~= allowed_from(g, stacks));
}

proof fn lemma_caches_move(f: Filtering, g: Filtering, c: Caches)
    requires
        caches_ok(f, c),
        f.rules == g.rules,
        f.table == g.table,
        f.width == g.width,
    ensures
        caches_ok(g, c),
{
    assert forall|sig: u64| #[trigger] c.masks.contains_key(sig) implies c.order.contains(sig) && honest_mask(
        g,
        sig,
        c.masks[sig],
    ) by {
        let st = choose|st: Seq<Seq<Frame>>| #[trigger]
            state_hash(st) == sig && c.masks[sig] == allowed_from(f, st);
        lemma_allowed_same(f, g, st);
        assert(state_hash(st) == sig && c.masks[sig] == allowed_from(g, st));
    }
}

/// What is cached for the state that was just used stays.
proof fn lemma_kept(c: Caches, sig: u64)
    requires
        c.order.no_duplicates(),
    ensures
        touched(c, sig).masks.contains_key(sig) == c.masks.contains_key(sig),
        c.masks.contains_key(sig) ==> touched(c, sig).masks[sig] == c.masks[sig],
        touched(c, sig).rows.contains_key(sig) == c.rows.contains_key(sig),
        c.rows.contains_key(sig) ==> touched(c, sig).rows[sig] == c.rows[sig],
{
    let order = renewed(c.order, sig);
    lemma_renewed(c.order, sig);
    if order.len() > 128 {
        assert(order[order.len() - 1] == sig);
        assert(order[0] != sig);
    }
}

proof fn lemma_caches_mask(f: Filtering, c: Caches, sig: u64, ids: Set<int>)
    requires
        caches_ok(f, c),
        honest_mask(f, sig, ids),
        c.masks.contains_key(sig) ==> ids == c.masks[sig],
    ensures
        caches_ok(f, touched(Caches { masks: c.masks.insert(sig, ids), ..c }, sig)),
{
    let d = Caches { masks: c.masks.insert(sig, ids), ..c };
    let t = touched(d, sig);
    let order = renewed(c.order, sig);
    lemma_renewed(c.order, sig);
    assert(t.order.no_duplicates());
    assert forall|x: u64| #[trigger] t.masks.contains_key(x) implies t.order.contains(x) && honest_mask(
        f,
        x,
        t.masks[x],
    ) by {
        if x != sig {
            assert(c.masks.contains_key(x));
        }
        assert(order.contains(x));
        if order.len() > 128 {
            let k = choose|k: int| 0 <= k < order.len() && order[k] == x;
            assert(k > 0);
            assert(t.order[k - 1] == x);
        }
    }
    assert forall|x: u64| #[trigger] t.rows.contains_key(x) implies t.masks.contains_key(x) && t.rows[x] == row_of(
        t.masks[x],
        t.rows[x].len(),
    ) by {
        assert(c.rows.contains_key(x));
        assert(c.masks.contains_key(x));
    }
}

/// The filter after tokens fed one after another.
pub open spec fn fed_all(f: Filtering, toks: Seq<i64>) -> Filtering
    decreases toks.len(),
{
    if toks.len() == 0 {
        f
    } else {
        fed(fed_all(f, toks.drop_last()), toks.last())
    }
}

proof fn lemma_fed_all(f: Filtering, toks: Seq<i64>)
    requires
        follows_journal(f),
    ensures
        follows_journal(fed_all(f, toks)),
        fed_all(f, toks).journal.len() == f.journal.len() + toks.len(),
        fed_all(f, toks).journal.take(f.journal.len() as int) == f.journal,
        fed_all(f, toks).rules == f.rules,
        fed_all(f, toks).root == f.root,
        fed_all(f, toks).table == f.table,
        fed_all(f, toks).width == f.width,
        fed_all(f, toks).trigger == f.trigger,
        fed_all(f, toks).stops == f.stops,
    decreases toks.len(),
{
    if toks.len() == 0 {
        assert(f.journal.take(f.journal.len() as int) =~= f.journal);
    } else {
        lemma_fed_all(f, toks.drop_last());
        let g = fed_all(f, toks.drop_last());
        feeding_follows_the_journal(g, toks.last());
        assert(fed(g, toks.last()).journal.take(f.journal.len() as int) =~= g.journal.take(f.journal.len() as int));
    }
}

/// Rolling a filter back over the tokens that it was fed restores it.
pub proof fn rewinding_undoes_feeding(f: Filtering, toks: Seq<i64>)
    requires
        follows_journal(f),
    ensures
        rewound(fed_all(f, toks), toks.len()) == f,
{
    lemma_fed_all(f, toks);
    let g = fed_all(f, toks);
    if toks.len() > 0 {
        let h = Filtering { journal: g.journal.take(f.journal.len() as int), ..g };
        lemma_replay_only_frame(f, h, f.journal);
        assert(rewound(g, toks.len()) =~= f);
    }
}

/// A new filter on a matcher at its start is where its empty journal leads.
pub proof fn new_filters_follow_their_journal(f: Filtering)
    requires
        f.journal.len() == 0,
        f.stacks == initial(f.rules, f.root),
        !f.dead,
        f.active == (f.trigger is None),
    ensures
        follows_journal(f),
{
    assert(f =~= fresh(f));
}

/// Where the current state shares its hash with no state that allows other tokens, the
/// tokens allowed are exactly those whose pieces the grammar takes.
pub proof fn masks_are_exact_without_collisions(f: Filtering, c: Caches)
    requires
        live(f),
        caches_ok(f, c),
        hashed_apart(f),
    ensures
        allowed_now(f, c) == allowed_from(f, f.stacks),
{
    let sig = state_hash(f.stacks);
    if c.masks.contains_key(sig) {
        let st = choose|st: Seq<Seq<Frame>>| #[trigger]
            state_hash(st) == sig && c.masks[sig] == allowed_from(f, st);
        assert(state_hash(st) == state_hash(f.stacks));
    }
}

/// No more than a fixed number of masks and rows is cached.
pub proof fn caches_are_bounded(f: Filtering, c: Caches)
    requires
        caches_ok(f, c),
    ensures
        c.masks.dom().finite(),
        c.masks.dom().len() <= 128,
        c.rows.dom().finite(),
        c.rows.dom().len() <= 128,
{
    c.order.lemma_cardinality_of_set();
    let all = c.order.to_set();
    assert(c.masks.dom().subset_of(all));
    assert forall|sig: u64| c.rows.dom().contains(sig) implies all.contains(sig) by {
        assert(c.rows.contains_key(sig));
        assert(c.masks.contains_key(sig));
    }
    assert(c.rows.dom().subset_of(all));
    vstd::set_lib::lemma_len_subset(c.masks.dom(), all);
    vstd::set_lib::lemma_len_subset(c.rows.dom(), all);
}

/// The states of filters, without the caches.
pub open spec fn filterings(fs: Seq<FilterState>) -> Seq<Filtering> {
    Seq::new(fs.len(), |i: int| fs[i].now())
}

/// For each filter, the tokens that it allows now.
pub open spec fn sets_now(fs: Seq<FilterState>) -> Seq<Set<int>> {
    Seq::new(fs.len(), |i: int| allowed_now(fs[i].now(), fs[i].caches()))
}

/// For each filter, the tokens whose pieces its grammar takes.
pub open spec fn sets_taken(fs: Seq<Filtering>) -> Seq<Set<int>> {
    Seq::new(fs.len(), |i: int| allowed_from(fs[i], fs[i].stacks))
}

/// How many of the filters constrain the next token.
pub open spec fn count_live(fs: Seq<Filtering>) -> nat
    decreases fs.len(),
{
    if fs.len() == 0 {
        0
    } else {
        count_live(fs.drop_last()) + if live(fs.last()) {
            1nat
        } else {
            0nat
        }
    }
}

/// Whether every live filter allows a token, where filter `i` allows `sets[i]`; ids past the words
/// of a filter's mask are not its concern.
pub open spec fn all_allow(fs: Seq<Filtering>, sets: Seq<Set<int>>, id: int) -> bool {
    forall|i: int|
        0 <= i < fs.len() && live(#[trigger] fs[i]) ==> sets[i].contains(id) || id >= 64 * words_for(fs[i].width)
}

/// The tokens that the live filters allow together.
pub open spec fn combined(fs: Seq<Filtering>, sets: Seq<Set<int>>) -> Set<int> {
    Set::new(|id: int| 0 <= id < fs[0].width && all_allow(fs, sets, id))
}

/// The flags of the tokens that filters allow together, where filter `i` allows `sets[i]`, for a
/// row of `width` logits. `None` where no filter is live.
pub open spec fn together(fs: Seq<Filtering>, sets: Seq<Set<int>>, width: nat) -> Option<Seq<bool>> {
    if count_live(fs) == 0 {
        None
    } else if count_live(fs) == 1 {
        let i = choose|i: int| 0 <= i < fs.len() && live(#[trigger] fs[i]);
        Some(row_of(sets[i], width))
    } else {
        Some(row_of(combined(fs, sets), width))
    }
}

/// Whether the state shares its hash with no state from which other tokens are allowed.
pub open spec fn hashed_apart(f: Filtering) -> bool {
    forall|st: Seq<Seq<Frame>>| #[trigger]
        state_hash(st) == state_hash(f.stacks) ==> allowed_from(f, st) == allowed_from(f, f.stacks)
}

proof fn lemma_count_live(fs: Seq<Filtering>)
    ensures
        count_live(fs) <= fs.len(),
        count_live(fs) > 0 ==> exists|i: int| 0 <= i < fs.len() && live(#[trigger] fs[i]),
    decreases fs.len(),
{
    if fs.len() > 0 {
        lemma_count_live(fs.drop_last());
        if live(fs.last()) {
            assert(live(fs[fs.len() - 1]));
        } else if count_live(fs) > 0 {
            let i = choose|i: int| 0 <= i < fs.len() - 1 && live(#[trigger] fs.drop_last()[i]);
            assert(live(fs[i]));
        }
    }
}

/// Where no live filter's state shares its hash with another, the filters deny exactly what their
/// grammars refuse, whatever was cached before.
pub proof fn filters_deny_what_the_grammars_refuse(fs: Seq<FilterState>, width: nat)
    requires
        forall|i: int| 0 <= i < fs.len() ==> (#[trigger] fs[i]).inv(),
        forall|i: int| 0 <= i < fs.len() && live((#[trigger] fs[i]).now()) ==> hashed_apart(fs[i].now()),
    ensures
        together(filterings(fs), sets_now(fs), width) == together(
            filterings(fs),
            sets_taken(filterings(fs)),
            width,
        ),
{
    let ws = filterings(fs);
    let a = sets_now(fs);
    let b = sets_taken(ws);
    lemma_count_live(ws);
    assert forall|i: int| 0 <= i < fs.len() && live(#[trigger] ws[i]) implies a[i] == b[i] by {
        assert(fs[i].inv());
        assert(live(fs[i].now()));
        masks_are_exact_without_collisions(fs[i].now(), fs[i].caches());
    }
    if count_live(ws) > 1 {
        assert forall|id: int| all_allow(ws, a, id) == all_allow(ws, b, id) by {
            if all_allow(ws, a, id) {
                assert forall|i: int| 0 <= i < ws.len() && live(#[trigger] ws[i]) implies b[i].contains(id) || id >= 64
                    * words_for(ws[i].width) by {
                    assert(a[i] == b[i]);
                }
            }
            if all_allow(ws, b, id) {
                assert forall|i: int| 0 <= i < ws.len() && live(#[trigger] ws[i]) implies a[i].contains(id) || id >= 64
                    * words_for(ws[i].width) by {
                    assert(a[i] == b[i]);
                }
            }
        }
        assert(combined(ws, a) =~= combined(ws, b));
    }
}

/// The flags of the tokens that the filters allow together, for a row of `width` logits:
/// where a flag is down, the logit is masked. `None` where no filter is active.
pub fn apply_filters(filters: &mut Vec<FilterState>, width: usize) -> (r: Option<Vec<bool>>)
    requires
        forall|i: int| 0 <= i < old(filters)@.len() ==> (#[trigger] old(filters)@[i]).inv(),
    ensures
        final(filters)@.len() == old(filters)@.len(),
        forall|i: int|
            0 <= i < final(filters)@.len() ==> (#[trigger] final(filters)@[i]).inv() && final(filters)@[i].now()
                == old(filters)@[i].now() && final(filters)@[i].caches() == if count_live(
                filterings(old(filters)@),
            ) > 1 {
                after_mask(old(filters)@[i].now(), old(filters)@[i].caches())
            } else {
                after_row(old(filters)@[i].now(), old(filters)@[i].caches(), width as nat)
            },
        match r {
            Some(row) => together(filterings(old(filters)@), sets_now(old(filters)@), width as nat) == Some(row@),
            None => together(filterings(old(filters)@), sets_now(old(filters)@), width as nat) is None,
        },
{
    let ghost fs = filters@;
    let ghost ws = filterings(fs);
    let ghost sets = sets_now(fs);
    let mut n: usize = 0;
    let mut first: usize = 0;
    let mut i: usize = 0;
    assert(ws.take(0) =~= seq![]);
    while i < filters.len()
        invariant
            i <= fs.len(),
            filters@ == fs,
            ws == filterings(fs),
            n <= i,
            n == count_live(ws.take(i as int)),
            n > 0 ==> first < i && live(ws[first as int]),
            n <= 1 ==> forall|j: int| 0 <= j < i && live(#[trigger] ws[j]) ==> j == first,
            n == 0 ==> forall|j: int| 0 <= j < i ==> !live(#[trigger] ws[j]),
        decreases fs.len() - i,
    {
        assert(ws.take(i + 1).drop_last() =~= ws.take(i as int));
        assert(ws.take(i + 1).last() == ws[i as int]);
        if filters[i].is_active() {
            if n == 0 {
                first = i;
            }
            n = n + 1;
        }
        i = i + 1;
    }
    assert(ws.take(i as int) =~= ws);
    if n == 0 {
        assert forall|j: int| 0 <= j < fs.len() implies !live((#[trigger] fs[j]).now()) by {
            assert(!live(ws[j]));
        }
        return None;
    }
    if n == 1 {
        assert forall|j: int| 0 <= j < fs.len() && j != first implies !live((#[trigger] fs[j]).now()) by {
            assert(ws[j] == fs[j].now());
        }
        return filters[first].additive(width);
    }
    proof {
        if fs.len() == 0 {
            assert(count_live(ws) == 0);
        }
    }
    let vocab = filters[0].trie.vocab();
    let mut all = TokenMask::all_allowed(vocab);
    let mut k: usize = 0;
    while k < filters.len()
        invariant
            k <= fs.len(),
            filters@.len() == fs.len(),
            ws == filterings(fs),
            sets == sets_now(fs),
            all.wf(),
            all.width() == vocab,
            fs.len() > 0,
            vocab == ws[0].width,
            forall|j: int| 0 <= j < fs.len() ==> (#[trigger] fs[j]).inv(),
            forall|j: int| k <= j < fs.len() ==> #[trigger] filters@[j] == fs[j],
            forall|j: int|
                0 <= j < k ==> (#[trigger] filters@[j]).inv() && filters@[j].now() == fs[j].now()
                    && filters@[j].caches() == after_mask(fs[j].now(), fs[j].caches()),
            forall|id: int| #[trigger]
                all.has(id) == (0 <= id < vocab && all_allow(ws.take(k as int), sets, id)),
        decreases fs.len() - k,
    {
        let ghost before = all;
        assert(filters@[k as int] == fs[k as int]);
        assert(ws[k as int] == fs[k as int].now());
        assert(sets[k as int] == allowed_now(fs[k as int].now(), fs[k as int].caches()));
        if filters[k].is_active() {
            let m = filters[k].mask();
            all.intersect(&m);
            proof {
                assert forall|id: int| #[trigger] all.has(id) == (0 <= id < vocab && all_allow(
                    ws.take(k + 1),
                    sets,
                    id,
                )) by {
                    assert(before.has(id) == (0 <= id < vocab && all_allow(ws.take(k as int), sets, id)));
                    assert(m.ids().contains(id) == m.has(id));
                    lemma_all_allow(ws, sets, k as int, id);
                }
            }
        } else {
            proof {
                assert forall|id: int| #[trigger] all.has(id) == (0 <= id < vocab && all_allow(
                    ws.take(k + 1),
                    sets,
                    id,
                )) by {
                    lemma_all_allow(ws, sets, k as int, id);
                }
            }
        }
        k = k + 1;
    }
    assert(ws.take(k as int) =~= ws);
    let row = all.to_row(width);
    assert(row@ =~= row_of(combined(ws, sets), width as nat));
    Some(row)
}

proof fn lemma_all_allow(fs: Seq<Filtering>, sets: Seq<Set<int>>, k: int, id: int)
    requires
        0 <= k < fs.len(),
    ensures
        all_allow(fs.take(k + 1), sets, id) == (all_allow(fs.take(k), sets, id) && (live(fs[k]) ==> sets[k].contains(id)
            || id >= 64 * words_for(fs[k].width))),
{
    let a = fs.take(k);
    let b = fs.take(k + 1);
    assert(b[k] == fs[k]);
    assert forall|i: int| 0 <= i < k implies #[trigger] a[i] == b[i] by {}
    if all_allow(b, sets, id) {
        assert forall|i: int| 0 <= i < a.len() && live(#[trigger] a[i]) implies sets[i].contains(id) || id >= 64
            * words_for(a[i].width) by {
            assert(b[i] == a[i]);
        }
    }
    if all_allow(a, sets, id) && (live(fs[k]) ==> sets[k].contains(id) || id >= 64 * words_for(fs[k].width)) {
        assert forall|i: int| 0 <= i < b.len() && live(#[trigger] b[i]) implies sets[i].contains(id) || id >= 64
            * words_for(b[i].width) by {
            if i < k {
                assert(a[i] == b[i]);
            }
        }
    }
}

} // verus!
