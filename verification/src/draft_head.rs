//! The draft head: an output layer over a part of the vocabulary, which only proposes tokens.
//! It holds the frequent tokens, the special ones at the top, and whatever the model turns out
//! to emit beside these.
use vstd::prelude::*;
use crate::linear::{covered, pruned, pruning_keeps_ranges, LinearPlan, PruneError, Pruned, Weights};
use crate::sorted::{insert, rising};

verus! {

/// How many tokens at the top of the vocabulary are always kept.
pub const SPECIAL_TAIL: i64 = 512;

/// After how many new blocks the head is built again.
pub const REBUILD_AFTER: usize = 4;

/// After how many times the head is given up.
pub const GIVE_UP_AFTER: usize = 16;

/// Which tokens the draft head holds.
pub struct DraftVocab {
    vocab_size: i64,
    /// The tokens that the head proposes, from the lowest up, where it is built.
    ids: Option<Vec<i64>>,
    /// Blocks that are kept beside the frequent tokens.
    pinned: Vec<i64>,
    /// Which blocks the head held when it was last built.
    keep: Vec<bool>,
    /// How many blocks were pinned since.
    misses: usize,
    /// How often the head was built again.
    rebuilds: usize,
    giveup: bool,
}

/// The state of a draft head.
#[verifier::ext_equal]
pub struct Vocab {
    pub vocab_size: int,
    pub ids: Option<Seq<i64>>,
    pub pinned: Set<i64>,
    pub keep: Seq<bool>,
    pub misses: int,
    pub rebuilds: int,
    pub giveup: bool,
}

/// The ranges of tokens that a head keeps, for this cut and these blocks.
pub open spec fn ranges_of(vocab_size: int, cut: int, pinned: Seq<i64>) -> Seq<(i64, i64)> {
    let tail = if vocab_size - 512 >= cut {
        vocab_size - 512
    } else {
        cut
    };
    seq![(0i64, cut as i64), (tail as i64, vocab_size as i64)] + Seq::new(
        pinned.len(),
        |i: int| ((pinned[i] * 128) as i64, (pinned[i] * 128 + 128) as i64),
    )
}

/// The blocks of the tokens of this vocabulary among these.
pub open spec fn token_blocks(vocab_size: int, tokens: Seq<i64>) -> Set<i64> {
    Set::new(
        |b: i64|
            exists|i: int| 0 <= i < tokens.len() && 0 <= #[trigger] tokens[i] < vocab_size && b == tokens[i] as int / 128,
    )
}

/// Whether a block is kept: it holds frequent, special or pinned tokens.
pub open spec fn kept(v: Vocab, cut: int, out_features: int, block: int) -> bool {
    let tail = if v.vocab_size - 512 >= cut {
        v.vocab_size - 512
    } else {
        cut
    };
    &&& 0 <= block < out_features / 128
    &&& (block * 128 < cut || tail / 128 <= block < (v.vocab_size + 127) / 128 || v.pinned.contains(block as i64))
}

/// Whether a head holds exactly these blocks.
pub open spec fn holds(v: Vocab, cut: int, out_features: int) -> bool {
    &&& v.ids matches Some(ids) && rising(ids) && forall|t: i64| #[trigger]
        ids.contains(t) <==> 0 <= t && kept(v, cut, out_features, t as int / 128)
    &&& v.keep.len() == out_features / 128
    &&& forall|b: int| 0 <= b < v.keep.len() ==> #[trigger] v.keep[b] == kept(v, cut, out_features, b)
}

/// Whether building the head for this cut has this outcome.
pub open spec fn enabled(
    v: Vocab,
    cut: int,
    extra: Seq<i64>,
    weights: Weights,
    out_features: int,
    r: Result<(), PruneError>,
    w: Vocab,
) -> bool {
    let pinned = Vocab { pinned: v.pinned.union(token_blocks(v.vocab_size, extra)), ..v };
    if cut <= 0 || cut >= v.vocab_size {
        r is Ok && w == (Vocab { ids: None, ..v })
    } else {
        match weights {
            Weights::Fp16 { .. } => r == Err::<(), PruneError>(PruneError::NotExl3) && w == pinned,
            Weights::Exl3 { bias, .. } => if bias {
                r == Err::<(), PruneError>(PruneError::Biased) && w == pinned
            } else {
                &&& r is Ok
                &&& w == (Vocab { ids: w.ids, keep: w.keep, misses: 0, ..pinned })
                &&& holds(w, cut, out_features)
            },
        }
    }
}

/// Whether a layer that is to be cut has whole blocks, and one output at least for each token. A
/// cut outside the vocabulary, and weights that cannot be cut, ask for nothing.
pub open spec fn fits(v: Vocab, cut: int, layer: LinearPlan) -> bool {
    0 < cut < v.vocab_size && layer.weights is Exl3 ==> v.vocab_size <= layer.out_features <= usize::MAX
        && layer.out_features % 128 == 0
}

/// Whether building the head anew, at the cut that is asked for, has this outcome.
pub open spec fn refreshed(
    v: Vocab,
    cut: Option<i64>,
    extra: Seq<i64>,
    weights: Weights,
    out_features: int,
    r: Result<(), PruneError>,
    w: Vocab,
) -> bool {
    match cut {
        Some(c) => if v.giveup {
            r is Ok && w == v
        } else {
            enabled(v, c as int, extra, weights, out_features, r, w)
        },
        None => r is Ok && w == v,
    }
}

/// The head after the model emitted these tokens: the blocks it lacked are pinned.
pub open spec fn learned(v: Vocab, tokens: Seq<i64>) -> Vocab
    decreases tokens.len(),
{
    if tokens.len() == 0 {
        v
    } else {
        let u = learned(v, tokens.drop_last());
        let t = tokens.last();
        let b = t as int / 128;
        if t >= 0 && b < u.keep.len() && !u.keep[b] && !u.pinned.contains(b as i64) {
            Vocab { pinned: u.pinned.insert(b as i64), misses: u.misses + 1, ..u }
        } else {
            u
        }
    }
}

/// Whether learning from these tokens has this outcome.
pub open spec fn adapted(
    v: Vocab,
    tokens: Seq<i64>,
    cut: Option<i64>,
    weights: Weights,
    out_features: int,
    r: Result<(), PruneError>,
    w: Vocab,
) -> bool {
    let u = learned(v, tokens);
    let again = Vocab { rebuilds: u.rebuilds + 1, ..u };
    if v.ids is None {
        r is Ok && w == v
    } else if u.misses < 4 {
        r is Ok && w == u
    } else if u.rebuilds + 1 > 16 {
        r is Ok && w == (Vocab { ids: None, keep: seq![], giveup: true, ..again })
    } else {
        refreshed(again, cut, seq![], weights, out_features, r, w)
    }
}

impl DraftVocab {
    /// The state.
    pub closed spec fn state(&self) -> Vocab {
        Vocab {
            vocab_size: self.vocab_size as int,
            ids: match self.ids {
                Some(v) => Some(v@),
                None => None,
            },
            pinned: self.pinned@.to_set(),
            keep: self.keep@,
            misses: self.misses as int,
            rebuilds: self.rebuilds as int,
            giveup: self.giveup,
        }
    }

    /// What every draft head keeps.
    pub closed spec fn inv(&self) -> bool {
        &&& rising(self.pinned@)
        &&& forall|i: int| 0 <= i < self.pinned@.len() ==> 0 <= #[trigger] self.pinned@[i] <= i64::MAX / 128 - 1
        &&& 0 <= self.vocab_size <= i64::MAX - 127
        &&& self.keep@.len() <= i64::MAX / 128
    }

    /// No head yet.
    pub fn new(vocab_size: i64) -> (r: DraftVocab)
        requires
            0 <= vocab_size <= i64::MAX - 127,
        ensures
            r.inv(),
            r.state() == (Vocab {
                vocab_size: vocab_size as int,
                ids: None,
                pinned: Set::empty(),
                keep: seq![],
                misses: 0,
                rebuilds: 0,
                giveup: false,
            }),
    {
        let r = DraftVocab {
            vocab_size,
            ids: None,
            pinned: Vec::new(),
            keep: Vec::new(),
            misses: 0,
            rebuilds: 0,
            giveup: false,
        };
        assert(r.pinned@.to_set() =~= Set::empty());
        r
    }

    fn pin(&mut self, extra: &Vec<i64>)
        requires
            old(self).inv(),
        ensures
            final(self).inv(),
            final(self).state() == (Vocab {
                pinned: old(self).state().pinned.union(token_blocks(old(self).state().vocab_size, extra@)),
                ..old(self).state()
            }),
    {
        let ghost first = self.pinned@.to_set();
        let mut i: usize = 0;
        assert(first =~= first.union(token_blocks(self.vocab_size as int, extra@.take(0))));
        while i < extra.len()
            invariant
                i <= extra.len(),
                self.inv(),
                first == old(self).state().pinned,
                self.state() == (Vocab { pinned: self.state().pinned, ..old(self).state() }),
                self.pinned@.to_set() == first.union(token_blocks(self.vocab_size as int, extra@.take(i as int))),
            decreases extra.len() - i,
        {
            let t: i64 = extra[i];
            let ghost before = self.pinned@;
            let ghost some = extra@.take(i as int);
            if t >= 0 && t < self.vocab_size {
                insert(&mut self.pinned, t / 128);
                proof {
                    assert forall|k: int| 0 <= k < self.pinned@.len() implies 0 <= #[trigger] self.pinned@[k]
                        <= i64::MAX / 128 - 1 by {
                        assert(self.pinned@.contains(self.pinned@[k]));
                        if self.pinned@[k] != t as int / 128 {
                            assert(before.contains(self.pinned@[k]));
                        }
                    }
                }
            }
            i = i + 1;
            proof {
                let more = extra@.take(i as int);
                let n = self.vocab_size as int;
                assert(more[i - 1] == t);
                assert forall|b: i64| self.pinned@.to_set().contains(b) <==> first.union(
                    token_blocks(n, more),
                ).contains(b) by {
                    assert(before.to_set().contains(b) <==> first.union(token_blocks(n, some)).contains(b));
                    if token_blocks(n, some).contains(b) {
                        let k = choose|k: int|
                            0 <= k < some.len() && 0 <= #[trigger] some[k] < n && b == some[k] as int / 128;
                        assert(more[k] == some[k]);
                    }
                    if token_blocks(n, more).contains(b) {
                        let k = choose|k: int|
                            0 <= k < more.len() && 0 <= #[trigger] more[k] < n && b == more[k] as int / 128;
                        if k < i - 1 {
                            assert(some[k] == more[k]);
                        }
                    }
                }
                assert(self.pinned@.to_set() =~= first.union(token_blocks(n, more)));
            }
        }
        assert(extra@.take(i as int) =~= extra@);
    }

    fn ranges(&self, cut: i64) -> (r: Vec<(i64, i64)>)
        requires
            self.inv(),
            0 < cut < self.state().vocab_size,
        ensures
            exists|pinned: Seq<i64>| #[trigger]
                pinned.to_set() == self.state().pinned && r@ == ranges_of(self.state().vocab_size, cut as int, pinned)
                    && forall|i: int| 0 <= i < pinned.len() ==> 0 <= #[trigger] pinned[i] <= i64::MAX / 128 - 1,
    {
        let v: i64 = self.vocab_size;
        let tail: i64 = if v - SPECIAL_TAIL >= cut {
            v - SPECIAL_TAIL
        } else {
            cut
        };
        let mut r: Vec<(i64, i64)> = vec![(0, cut), (tail, v)];
        let ghost head = seq![(0i64, cut), (tail, v)];
        assert(r@ =~= head);
        let mut i: usize = 0;
        while i < self.pinned.len()
            invariant
                self.inv(),
                i <= self.pinned.len(),
                r@ == head + Seq::new(
                    i as nat,
                    |j: int| ((self.pinned@[j] * 128) as i64, (self.pinned@[j] * 128 + 128) as i64),
                ),
            decreases self.pinned.len() - i,
        {
            let b: i64 = self.pinned[i];
            assert(0 <= self.pinned@[i as int] <= i64::MAX / 128 - 1);
            r.push((b * 128, b * 128 + 128));
            i = i + 1;
            assert(r@ =~= head + Seq::new(
                i as nat,
                |j: int| ((self.pinned@[j] * 128) as i64, (self.pinned@[j] * 128 + 128) as i64),
            ));
        }
        proof {
            let pinned = self.pinned@;
            assert(r@ =~= ranges_of(v as int, cut as int, pinned));
            assert(pinned.to_set() == self.state().pinned);
        }
        r
    }

    /// Build the head over the tokens below `cut`, the special ones, the pinned blocks and those
    /// of `extra`. A cut outside the vocabulary takes the head away.
    pub fn enable_draft_head(&mut self, cut: i64, extra: &Vec<i64>, layer: &LinearPlan) -> (r: Result<(), PruneError>)
        requires
            old(self).inv(),
            fits(old(self).state(), cut as int, *layer),
        ensures
            final(self).inv(),
            enabled(
                old(self).state(),
                cut as int,
                extra@,
                layer.weights,
                layer.out_features as int,
                r,
                final(self).state(),
            ),
    {
        if cut <= 0 || cut >= self.vocab_size {
            self.ids = None;
            return Ok(());
        }
        self.pin(extra);
        let ranges = self.ranges(cut);
        let ghost v = self.state();
        let p = match layer.prune_out(&ranges) {
            Ok(p) => p,
            Err(e) => {
                proof {
                    if e == PruneError::Empty {
                        assert(ranges@[0] == (0i64, cut));
                        assert(covered(ranges@, layer.out_features as int, 0));
                    }
                }
                return Err(e);
            },
        };
        let ghost out = layer.out_features as int;
        let n: usize = (layer.out_features / 128) as usize;
        let keep = kept_blocks(&p.ids, n);
        let Pruned { ids, tiles: _ } = p;
        proof {
            let pinned = choose|pinned: Seq<i64>| #[trigger]
                pinned.to_set() == v.pinned && ranges@ == ranges_of(v.vocab_size, cut as int, pinned) && forall|
                    i: int,
                |
                    0 <= i < pinned.len() ==> 0 <= #[trigger] pinned[i] <= i64::MAX / 128 - 1;
            lemma_covered(v, cut as int, out, pinned);
            lemma_pruned_ids(ranges@, out, p);
            assert forall|t: i64| #[trigger] ids@.contains(t) <==> 0 <= t && kept(v, cut as int, out, t as int / 128) by {
                if 0 <= t {
                    assert(covered(ranges@, out, t as int / 128) <==> kept(v, cut as int, out, t as int / 128));
                }
            }
            pruning_keeps_ranges(ranges@, out, p);
            assert forall|b: int| 0 <= b < keep@.len() implies #[trigger] keep@[b] == kept(v, cut as int, out, b) by {
                if keep@[b] {
                    let i = choose|i: int| 0 <= i < ids@.len() && #[trigger] ids@[i] as int / 128 == b;
                    assert(ids@.contains(ids@[i]));
                }
                if kept(v, cut as int, out, b) {
                    let t = (b * 128) as i64;
                    assert(t as int / 128 == b);
                    assert(ids@.contains(t));
                    let i = choose|i: int| 0 <= i < ids@.len() && ids@[i] == t;
                    assert(ids@[i] as int / 128 == b);
                }
            }
        }
        self.ids = Some(ids);
        self.keep = keep;
        self.misses = 0;
        Ok(())
    }

    /// Build the head anew at the cut that is asked for, if one is, unless it was given up.
    pub fn refresh_draft_head(&mut self, cut: Option<i64>, extra: &Vec<i64>, layer: &LinearPlan) -> (r: Result<
        (),
        PruneError,
    >)
        requires
            old(self).inv(),
            cut matches Some(c) ==> fits(old(self).state(), c as int, *layer),
        ensures
            final(self).inv(),
            refreshed(
                old(self).state(),
                cut,
                extra@,
                layer.weights,
                layer.out_features as int,
                r,
                final(self).state(),
            ),
    {
        if self.giveup {
            return Ok(());
        }
        match cut {
            Some(c) => self.enable_draft_head(c, extra, layer),
            None => Ok(()),
        }
    }

    /// Learn from the tokens that the model emitted. The head is built again when it lacked
    /// enough of them, and given up when that happens too often.
    pub fn adapt_draft_head(&mut self, committed: &Vec<i64>, cut: Option<i64>, layer: &LinearPlan) -> (r: Result<
        (),
        PruneError,
    >)
        requires
            old(self).inv(),
            cut matches Some(c) ==> fits(old(self).state(), c as int, *layer),
            old(self).state().misses + committed.len() <= usize::MAX,
            old(self).state().rebuilds < usize::MAX,
        ensures
            final(self).inv(),
            adapted(
                old(self).state(),
                committed@,
                cut,
                layer.weights,
                layer.out_features as int,
                r,
                final(self).state(),
            ),
    {
        if self.ids.is_none() {
            return Ok(());
        }
        let ghost v = self.state();
        let mut i: usize = 0;
        assert(committed@.take(0) =~= seq![]);
        while i < committed.len()
            invariant
                self.inv(),
                i <= committed.len(),
                self.state() == learned(v, committed@.take(i as int)),
                self.misses <= v.misses + i,
                v.misses + committed.len() <= usize::MAX,
                self.keep@ == v.keep,
                self.rebuilds == v.rebuilds,
                self.ids is Some,
                self.vocab_size == v.vocab_size,
            decreases committed.len() - i,
        {
            let t: i64 = committed[i];
            let ghost u = self.state();
            let ghost pins = self.pinned@;
            let ghost some = committed@.take(i as int);
            proof {
                let more = committed@.take(i + 1);
                assert(more.drop_last() =~= some);
                assert(more.last() == t);
            }
            let blocks: usize = self.keep.len();
            if t >= 0 && ((t / 128) as u64) < blocks as u64 {
                let b: usize = (t / 128) as usize;
                if !self.keep[b] {
                    if insert(&mut self.pinned, t / 128) {
                        self.misses = self.misses + 1;
                    }
                    proof {
                        let x = (t / 128) as i64;
                        assert forall|k: int| 0 <= k < self.pinned@.len() implies 0 <= #[trigger] self.pinned@[k]
                            <= i64::MAX / 128 - 1 by {
                            assert(self.pinned@.contains(self.pinned@[k]));
                            if self.pinned@[k] != x {
                                assert(pins.contains(self.pinned@[k]));
                            }
                        }
                        assert(self.pinned@.to_set() =~= pins.to_set().insert(x));
                        assert(pins.to_set().contains(x) == pins.contains(x));
                        assert(pins.to_set().contains(x) ==> self.pinned@.to_set() =~= pins.to_set());
                    }
                }
            }
            assert(u.pinned.contains((t / 128) as i64) == pins.contains((t / 128) as i64));
            assert(self.state() =~= learned(v, committed@.take(i + 1)));
            i = i + 1;
        }
        assert(committed@.take(i as int) =~= committed@);
        if self.misses < REBUILD_AFTER {
            return Ok(());
        }
        self.rebuilds = self.rebuilds + 1;
        if self.rebuilds > GIVE_UP_AFTER {
            self.giveup = true;
            self.ids = None;
            self.keep = Vec::new();
            assert(self.keep@ =~= seq![]);
            return Ok(());
        }
        let none: Vec<i64> = Vec::new();
        assert(none@ =~= seq![]);
        self.refresh_draft_head(cut, &none, layer)
    }

    /// The token that the head's output at this place stands for.
    pub fn token_at(&self, place: usize) -> (r: i64)
        requires
            self.inv(),
            self.state().ids matches Some(ids) ==> place < ids.len(),
            self.state().ids is None ==> place <= i64::MAX,
        ensures
            r == match self.state().ids {
                Some(ids) => ids[place as int],
                None => place as i64,
            },
    {
        match &self.ids {
            Some(v) => v[place],
            None => place as i64,
        }
    }

    /// Which of the head's outputs are padding, where some are.
    pub fn padding(&self) -> (r: Option<Vec<bool>>)
        requires
            self.inv(),
        ensures
            match r {
                Some(m) => self.state().ids matches Some(ids) && m@ == Seq::new(
                    ids.len(),
                    |i: int| ids[i] >= self.state().vocab_size,
                ) && exists|i: int| 0 <= i < ids.len() && #[trigger] ids[i] >= self.state().vocab_size,
                None => self.state().ids matches Some(ids) ==> forall|i: int|
                    0 <= i < ids.len() ==> #[trigger] ids[i] < self.state().vocab_size,
            },
    {
        match &self.ids {
            Some(v) => {
                let mut m: Vec<bool> = Vec::new();
                let mut any: bool = false;
                let mut i: usize = 0;
                while i < v.len()
                    invariant
                        i <= v.len(),
                        m@ == Seq::new(i as nat, |j: int| v@[j] >= self.vocab_size),
                        any == exists|j: int| 0 <= j < i && #[trigger] v@[j] >= self.vocab_size,
                    decreases v.len() - i,
                {
                    let pad: bool = v[i] >= self.vocab_size;
                    m.push(pad);
                    if pad {
                        any = true;
                    }
                    i = i + 1;
                    assert(m@ =~= Seq::new(i as nat, |j: int| v@[j] >= self.vocab_size));
                    proof {
                        if pad {
                            assert(v@[i - 1] >= self.vocab_size);
                        }
                    }
                }
                let ghost ids = self.state().ids->0;
                assert(ids == v@);
                assert(m@ =~= Seq::new(ids.len(), |j: int| ids[j] >= self.state().vocab_size));
                if any {
                    proof {
                        let j = choose|j: int| 0 <= j < v@.len() && #[trigger] v@[j] >= self.vocab_size;
                        assert(ids[j] >= self.state().vocab_size);
                    }
                    Some(m)
                } else {
                    None
                }
            },
            None => None,
        }
    }
}

/// Which of `n` blocks have one of these tokens.
fn kept_blocks(ids: &Vec<i64>, n: usize) -> (r: Vec<bool>)
    ensures
        r.len() == n,
        forall|b: int|
            0 <= b < n ==> #[trigger] r@[b] == (exists|i: int| 0 <= i < ids.len() && #[trigger] ids@[i] as int / 128 == b),
{
    let mut r: Vec<bool> = Vec::new();
    let mut b: usize = 0;
    while b < n
        invariant
            b <= n,
            r.len() == b,
            forall|j: int| 0 <= j < b ==> !#[trigger] r@[j],
        decreases n - b,
    {
        r.push(false);
        b = b + 1;
    }
    let mut i: usize = 0;
    while i < ids.len()
        invariant
            i <= ids.len(),
            r.len() == n,
            forall|b: int|
                0 <= b < n ==> #[trigger] r@[b] == (exists|j: int| 0 <= j < i && #[trigger] ids@[j] as int / 128 == b),
        decreases ids.len() - i,
    {
        let t: i64 = ids[i];
        let ghost before = r@;
        if t >= 0 && (t / 128) as u64 <= usize::MAX as u64 && ((t / 128) as usize) < n {
            r.set((t / 128) as usize, true);
        }
        i = i + 1;
        proof {
            assert forall|b: int| 0 <= b < n implies #[trigger] r@[b] == (exists|j: int|
                0 <= j < i && #[trigger] ids@[j] as int / 128 == b) by {
                assert(before[b] == (exists|j: int| 0 <= j < i - 1 && #[trigger] ids@[j] as int / 128 == b));
                if r@[b] && !before[b] {
                    assert(ids@[i - 1] as int / 128 == b);
                }
                if exists|j: int| 0 <= j < i && #[trigger] ids@[j] as int / 128 == b {
                    let j = choose|j: int| 0 <= j < i && #[trigger] ids@[j] as int / 128 == b;
                    if j < i - 1 {
                        assert(before[b]);
                    }
                }
            }
        }
    }
    r
}

proof fn lemma_covered(v: Vocab, cut: int, out: int, pinned: Seq<i64>)
    requires
        0 < cut < v.vocab_size <= out <= i64::MAX,
        v.vocab_size <= i64::MAX - 127,
        out % 128 == 0,
        pinned.to_set() == v.pinned,
        forall|i: int| 0 <= i < pinned.len() ==> 0 <= #[trigger] pinned[i] <= i64::MAX / 128 - 1,
    ensures
        forall|b: int| 0 <= b ==> (#[trigger] covered(ranges_of(v.vocab_size, cut, pinned), out, b) <==> kept(v, cut, out, b)),
{
    let ranges = ranges_of(v.vocab_size, cut, pinned);
    assert forall|b: int| 0 <= b implies (#[trigger] covered(ranges, out, b) <==> kept(v, cut, out, b)) by {
        if covered(ranges, out, b) {
            let i = choose|i: int|
                0 <= i < ranges.len() && crate::linear::first_block(#[trigger] ranges[i]) <= b < crate::linear::end_block(
                    ranges[i],
                    out,
                );
            if i >= 2 {
                assert(ranges[i] == ((pinned[i - 2] * 128) as i64, (pinned[i - 2] * 128 + 128) as i64));
                assert(0 <= pinned[i - 2] <= i64::MAX / 128 - 1);
                assert(b == pinned[i - 2]);
                assert(pinned.contains(b as i64));
            }
        }
        if kept(v, cut, out, b) {
            if b * 128 < cut {
                assert(ranges[0] == (0i64, cut as i64));
            } else if v.pinned.contains(b as i64) {
                assert(pinned.contains(b as i64));
                let k = choose|k: int| 0 <= k < pinned.len() && pinned[k] == b as i64;
                assert(ranges[k + 2] == ((pinned[k] * 128) as i64, (pinned[k] * 128 + 128) as i64));
            } else {
                assert(ranges[1].1 == v.vocab_size);
            }
        }
    }
}

proof fn lemma_pruned_ids(ranges: Seq<(i64, i64)>, out: int, p: Pruned)
    requires
        pruned(ranges, out, p),
        0 <= out <= i64::MAX,
    ensures
        forall|t: i64| #[trigger] p.ids@.contains(t) <==> 0 <= t && covered(ranges, out, t as int / 128),
{
    let blocks = choose|blocks: Seq<i64>| #[trigger]
        crate::linear::blocks_of(ranges, out, blocks) && blocks.len() > 0 && p.ids@ == crate::linear::spread(blocks, 128)
            && p.tiles@ == crate::linear::spread(blocks, 8);
    let ids = p.ids@;
    assert forall|i: int| 0 <= i < blocks.len() implies 0 <= #[trigger] blocks[i] < out / 128 by {
        assert(covered(ranges, out, blocks[i] as int));
    }
    assert forall|t: i64| #[trigger] ids.contains(t) <==> 0 <= t && covered(ranges, out, t as int / 128) by {
        if ids.contains(t) {
            let k = choose|k: int| 0 <= k < ids.len() && ids[k] == t;
            assert(0 <= blocks[k / 128] < out / 128);
            assert(t as int / 128 == blocks[k / 128]);
            assert(covered(ranges, out, blocks[k / 128] as int));
        }
        if 0 <= t && covered(ranges, out, t as int / 128) {
            let b = t as int / 128;
            let k = choose|k: int| 0 <= k < blocks.len() && blocks[k] == b as i64;
            let at = k * 128 + t as int % 128;
            assert(at / 128 == k && at % 128 == t as int % 128);
            assert(ids[at] == t);
        }
    }
}

/// The head proposes every frequent token and every special one.
pub proof fn common_tokens_are_drafted(v: Vocab, cut: int, out_features: int, t: i64)
    requires
        holds(v, cut, out_features),
        v.vocab_size <= out_features,
        out_features % 128 == 0,
        0 <= t < v.vocab_size,
        t < cut || t >= v.vocab_size - 512,
    ensures
        v.ids->0.contains(t),
{
    let b = t as int / 128;
    if t >= cut {
        let tail = if v.vocab_size - 512 >= cut {
            v.vocab_size - 512
        } else {
            cut
        };
        assert(tail / 128 <= b);
    }
    assert(kept(v, cut, out_features, b));
}

/// Learning keeps what was pinned, and pins the block of every token whose block the head
/// lacked.
pub proof fn emitted_tokens_are_pinned(v: Vocab, tokens: Seq<i64>)
    ensures
        v.pinned.subset_of(learned(v, tokens).pinned),
        learned(v, tokens) == (Vocab {
            pinned: learned(v, tokens).pinned,
            misses: learned(v, tokens).misses,
            ..v
        }),
        forall|i: int|
            0 <= i < tokens.len() && 0 <= #[trigger] tokens[i] && tokens[i] as int / 128 < v.keep.len()
                ==> v.keep[tokens[i] as int / 128] || learned(v, tokens).pinned.contains((tokens[i] / 128) as i64),
    decreases tokens.len(),
{
    if tokens.len() > 0 {
        let rest = tokens.drop_last();
        emitted_tokens_are_pinned(v, rest);
        assert forall|i: int|
            0 <= i < tokens.len() && 0 <= #[trigger] tokens[i] && tokens[i] as int / 128
                < v.keep.len() implies v.keep[tokens[i] as int / 128] || learned(v, tokens).pinned.contains(
            (tokens[i] / 128) as i64,
        ) by {
            if i < rest.len() {
                assert(rest[i] == tokens[i]);
            }
        }
    }
}

/// When the head is built again at the same cut, it proposes every token that the model emitted.
pub proof fn rebuilt_heads_hold_emitted_tokens(
    v: Vocab,
    tokens: Seq<i64>,
    cut: i64,
    weights: Weights,
    out_features: int,
    r: Result<(), PruneError>,
    w: Vocab,
)
    requires
        holds(v, cut as int, out_features),
        0 < cut < v.vocab_size <= out_features <= i64::MAX,
        out_features % 128 == 0,
        adapted(v, tokens, Some(cut), weights, out_features, r, w),
        r is Ok,
        w.ids is Some,
        w.rebuilds > v.rebuilds,
        !v.giveup,
    ensures
        forall|i: int| 0 <= i < tokens.len() && 0 <= #[trigger] tokens[i] < out_features ==> w.ids->0.contains(tokens[i]),
{
    emitted_tokens_are_pinned(v, tokens);
    let u = learned(v, tokens);
    assert(token_blocks(u.vocab_size, seq![]) =~= Set::empty());
    assert(w.pinned =~= u.pinned);
    assert forall|i: int| 0 <= i < tokens.len() && 0 <= #[trigger] tokens[i] < out_features implies w.ids->0.contains(
        tokens[i],
    ) by {
        let b = tokens[i] as int / 128;
        assert(v.keep[b] == kept(v, cut as int, out_features, b));
        assert(kept(w, cut as int, out_features, b));
    }
}

/// A head that will not settle is given up: it is never built more often than a fixed number of
/// times.
pub proof fn heads_are_given_up(
    v: Vocab,
    tokens: Seq<i64>,
    cut: Option<i64>,
    weights: Weights,
    out_features: int,
    r: Result<(), PruneError>,
    w: Vocab,
)
    requires
        adapted(v, tokens, cut, weights, out_features, r, w),
        v.rebuilds <= 16,
    ensures
        w.rebuilds <= 17,
        w.rebuilds == 17 ==> w.giveup && w.ids is None,
{
    emitted_tokens_are_pinned(v, tokens);
}

} // verus!
