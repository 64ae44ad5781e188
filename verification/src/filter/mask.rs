//! Sets of allowed tokens.
use vstd::prelude::*;

verus! {

/// Bit `k` of a word.
pub open spec fn bit(w: u64, k: int) -> bool {
    (w >> (k as u64)) & 1 == 1
}

/// The set of allowed tokens among the ids below `vocab`, one bit per id.
#[derive(Clone)]
pub struct TokenMask {
    words: Vec<u64>,
    vocab: usize,
}

proof fn lemma_bit_none(k: u64)
    requires
        k < 64,
    ensures
        !bit(0, k as int),
{
    assert(k < 64 ==> (0u64 >> k) & 1 == 0) by (bit_vector);
}

proof fn lemma_bit_all(k: u64)
    requires
        k < 64,
    ensures
        bit(u64::MAX, k as int),
{
    assert(k < 64 ==> (0xffff_ffff_ffff_ffffu64 >> k) & 1 == 1) by (bit_vector);
}

proof fn lemma_bit_below(n: u64, k: u64)
    requires
        0 < n < 64,
        k < 64,
    ensures
        (1u64 << n) >= 1,
        bit(((1u64 << n) - 1) as u64, k as int) == (k < n),
{
    assert(0 < n < 64 ==> (1u64 << n) >= 1) by (bit_vector);
    assert(0 < n < 64 && k < 64 ==> (((((1u64 << n) - 1) as u64) >> k) & 1 == 1) == (k < n)) by (bit_vector);
}

proof fn lemma_bit_set(w: u64, k: u64, j: u64)
    requires
        k < 64,
        j < 64,
    ensures
        bit(w | (1u64 << k), j as int) == (j == k || bit(w, j as int)),
{
    assert(k < 64 && j < 64 ==> (((w | (1u64 << k)) >> j) & 1 == 1) == (j == k || (w >> j) & 1 == 1))
        by (bit_vector);
}

proof fn lemma_bit_and(a: u64, b: u64, j: u64)
    requires
        j < 64,
    ensures
        bit(a & b, j as int) == (bit(a, j as int) && bit(b, j as int)),
{
    assert(j < 64 ==> (((a & b) >> j) & 1 == 1) == ((a >> j) & 1 == 1 && (b >> j) & 1 == 1)) by (bit_vector);
}

/// How many words hold `n` bits.
pub open spec fn words_for(n: int) -> int {
    (n + 63) / 64
}

impl TokenMask {
    /// How many ids there are.
    pub closed spec fn width(&self) -> int {
        self.vocab as int
    }

    spec fn raw(&self, id: int) -> bool {
        bit(self.words@[id / 64], id % 64)
    }

    /// Whether a token is allowed.
    pub closed spec fn has(&self, id: int) -> bool {
        0 <= id < self.vocab && self.raw(id)
    }

    /// A mask allows ids below its width only.
    pub proof fn lemma_within(&self, id: int)
        requires
            self.has(id),
        ensures
            0 <= id < self.width(),
    {
    }

    /// The allowed tokens.
    pub open spec fn ids(&self) -> Set<int> {
        Set::new(|id: int| self.has(id))
    }

    /// There is a bit for each id, and none is set beyond.
    pub closed spec fn wf(&self) -> bool {
        &&& self.words@.len() == words_for(self.vocab as int)
        &&& forall|id: int|
            self.vocab <= id < 64 * self.words@.len() ==> !#[trigger] self.raw(id)
    }

    fn filled(vocab: usize, w: u64) -> (words: Vec<u64>)
        ensures
            words@.len() == words_for(vocab as int),
            forall|i: int| 0 <= i < words@.len() ==> words@[i] == w,
    {
        let mut n: usize = vocab / 64;
        if vocab % 64 != 0 {
            n = n + 1;
        }
        let mut words: Vec<u64> = Vec::new();
        let mut i: usize = 0;
        while i < n
            invariant
                i <= n,
                words@.len() == i,
                forall|j: int| 0 <= j < i ==> words@[j] == w,
            decreases n - i,
        {
            words.push(w);
            i = i + 1;
        }
        words
    }

    /// No token allowed.
    pub fn all_denied(vocab: usize) -> (r: TokenMask)
        ensures
            r.wf(),
            r.width() == vocab,
            forall|id: int| !r.has(id),
    {
        let r = TokenMask { words: Self::filled(vocab, 0), vocab };
        assert forall|id: int| 0 <= id < 64 * r.words@.len() implies !#[trigger] r.raw(id) by {
            lemma_bit_none((id % 64) as u64);
        }
        r
    }

    /// Every token allowed.
    pub fn all_allowed(vocab: usize) -> (r: TokenMask)
        ensures
            r.wf(),
            r.width() == vocab,
            forall|id: int| r.has(id) == (0 <= id < vocab),
    {
        let mut words = Self::filled(vocab, u64::MAX);
        let tail: usize = vocab % 64;
        let ghost n = words@.len();
        if tail != 0 {
            proof {
                lemma_bit_below(tail as u64, 0);
            }
            let last: usize = words.len() - 1;
            words.set(last, (1u64 << (tail as u64)) - 1);
        }
        let r = TokenMask { words, vocab };
        assert forall|id: int| 0 <= id < 64 * n implies #[trigger] r.raw(id) == (id < vocab) by {
            if tail != 0 && id / 64 == n - 1 {
                lemma_bit_below(tail as u64, (id % 64) as u64);
            } else {
                lemma_bit_all((id % 64) as u64);
            }
        }
        r
    }

    /// Allow a token; an id that the mask has no bit for changes nothing.
    pub fn allow(&mut self, id: usize)
        requires
            old(self).wf(),
        ensures
            final(self).wf(),
            final(self).width() == old(self).width(),
            forall|j: int|
                #[trigger] final(self).has(j) == (old(self).has(j) || (j == id && id < old(self).width())),
    {
        if id < self.vocab {
            let ghost words0 = self.words@;
            let k: u64 = (id % 64) as u64;
            let w: u64 = self.words[id / 64] | (1u64 << k);
            self.words.set(id / 64, w);
            assert forall|j: int| 0 <= j < 64 * self.words@.len() implies #[trigger] self.raw(j) == (j == id
                || bit(words0[j / 64], j % 64)) by {
                lemma_bit_set(words0[id as int / 64], k, (j % 64) as u64);
                if j / 64 == id / 64 && j % 64 == id % 64 {
                    assert(j == id);
                }
            }
            assert forall|j: int| self.vocab <= j < 64 * self.words@.len() implies !#[trigger] self.raw(j) by {
                assert(!old(self).raw(j));
            }
        }
    }

    /// Whether a token is allowed.
    pub fn is_allowed(&self, id: usize) -> (r: bool)
        requires
            self.wf(),
        ensures
            r == self.has(id as int),
    {
        id < self.vocab && (self.words[id / 64] >> ((id % 64) as u64)) & 1 == 1
    }

    /// Keep the tokens that `other` allows too. Ids past the words of `other` stay.
    pub fn intersect(&mut self, other: &TokenMask)
        requires
            old(self).wf(),
            other.wf(),
        ensures
            final(self).wf(),
            final(self).width() == old(self).width(),
            forall|j: int|
                #[trigger] final(self).has(j) == (old(self).has(j) && (other.has(j) || j >= 64 * words_for(
                    other.width(),
                ))),
    {
        let ghost words0 = self.words@;
        let mut i: usize = 0;
        while i < self.words.len() && i < other.words.len()
            invariant
                i <= self.words@.len(),
                i <= other.words@.len(),
                self.words@.len() == words0.len(),
                self.vocab == old(self).vocab,
                forall|j: int| 0 <= j < i ==> #[trigger] self.words@[j] == words0[j] & other.words@[j],
                forall|j: int| i <= j < words0.len() ==> #[trigger] self.words@[j] == words0[j],
            decreases self.words@.len() - i,
        {
            let w: u64 = self.words[i] & other.words[i];
            self.words.set(i, w);
            i = i + 1;
        }
        assert forall|j: int| 0 <= j < 64 * self.words@.len() implies #[trigger] self.raw(j) == (bit(
            words0[j / 64],
            j % 64,
        ) && (j >= 64 * other.words@.len() || other.raw(j))) by {
            if j / 64 < other.words@.len() {
                lemma_bit_and(words0[j / 64], other.words@[j / 64], (j % 64) as u64);
            }
        }
        assert forall|j: int| self.vocab <= j < 64 * self.words@.len() implies !#[trigger] self.raw(j) by {
            assert(!old(self).raw(j));
        }
        assert forall|j: int| #[trigger] self.has(j) == (old(self).has(j) && (other.has(j) || j >= 64 * words_for(
            other.width(),
        ))) by {
            if 0 <= j < self.vocab {
                assert(j < 64 * self.words@.len());
                if j < 64 * other.words@.len() && j >= other.vocab {
                    assert(!other.raw(j));
                }
                assert(old(self).raw(j) == bit(words0[j / 64], j % 64));
            }
        }
    }

    /// How many tokens are allowed.
    pub fn count(&self) -> (r: usize)
        requires
            self.wf(),
        ensures
            self.ids().finite(),
            r == self.ids().len(),
    {
        let mut n: usize = 0;
        let mut i: usize = 0;
        let ghost mut seen: Set<int> = Set::empty();
        while i < self.vocab
            invariant
                i <= self.vocab,
                n <= i,
                self.wf(),
                seen.finite(),
                seen.len() == n,
                forall|id: int| #[trigger] seen.contains(id) == (self.has(id) && id < i),
            decreases self.vocab - i,
        {
            if self.is_allowed(i) {
                n = n + 1;
                proof {
                    assert(!seen.contains(i as int));
                    seen = seen.insert(i as int);
                }
            }
            i = i + 1;
        }
        assert(seen =~= self.ids());
        n
    }

    /// How many ids there are.
    pub fn len(&self) -> (r: usize)
        ensures
            r == self.width(),
    {
        self.vocab
    }

    /// One flag per id below `width`: whether the token is allowed.
    pub fn to_row(&self, width: usize) -> (r: Vec<bool>)
        requires
            self.wf(),
        ensures
            r@ == Seq::new(width as nat, |i: int| self.has(i)),
    {
        let mut r: Vec<bool> = Vec::new();
        let mut i: usize = 0;
        while i < width
            invariant
                i <= width,
                self.wf(),
                r@ == Seq::new(i as nat, |i: int| self.has(i)),
            decreases width - i,
        {
            r.push(self.is_allowed(i));
            i = i + 1;
            assert(r@ =~= Seq::new(i as nat, |i: int| self.has(i)));
        }
        r
    }

    /// A copy.
    pub fn duplicate(&self) -> (r: TokenMask)
        requires
            self.wf(),
        ensures
            r.wf(),
            r.width() == self.width(),
            forall|id: int| r.has(id) == self.has(id),
    {
        let mut words: Vec<u64> = Vec::new();
        let mut i: usize = 0;
        while i < self.words.len()
            invariant
                i <= self.words@.len(),
                words@ == self.words@.take(i as int),
            decreases self.words@.len() - i,
        {
            words.push(self.words[i]);
            i = i + 1;
            assert(words@ =~= self.words@.take(i as int));
        }
        assert(words@ =~= self.words@);
        let r = TokenMask { words, vocab: self.vocab };
        assert forall|id: int| #[trigger] r.raw(id) == self.raw(id) by {}
        r
    }
}

} // verus!
