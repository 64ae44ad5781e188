//! Streaming loop detector: observes tokens and fires when the whole observed window is
//! made up of a repeating sequence.
//!
//! For each period the detector knows how many of the newest tokens match the one a period
//! back. A run that fills the window is a loop.
use vstd::prelude::*;

verus! {

/// How many of the last `cap` tokens, counted back from the newest without a gap, equal
/// the token a period before.
pub open spec fn run_length(tokens: Seq<i64>, p: int, cap: int) -> int
    decreases cap,
{
    if cap <= 0 {
        0
    } else {
        let r = run_length(tokens, p, cap - 1);
        if r == cap - 1 && matches_back(tokens, p, cap - 1) {
            cap
        } else {
            r
        }
    }
}

/// Whether the token `k` places before the newest equals the one a period before it.
pub open spec fn matches_back(tokens: Seq<i64>, p: int, k: int) -> bool {
    let i = tokens.len() - 1 - k;
    0 <= i - p && i < tokens.len() && tokens[i] == tokens[i - p]
}

/// Whether the last `n` tokens repeat with period `p`.
pub open spec fn repeats(tokens: Seq<i64>, p: int, n: int) -> bool {
    forall|k: int| 0 <= k < n - p ==> #[trigger] matches_back(tokens, p, k)
}

/// Whether a sequence of `p` tokens, repeated, makes up the last `w` tokens.
pub open spec fn tiles(tokens: Seq<i64>, w: int, p: int) -> bool {
    tokens.len() >= w && forall|i: int|
        tokens.len() - w + p <= i < tokens.len() ==> #[trigger] tokens[i] == tokens[i - p]
}

/// The longest of the first `n` periods that tiles the window.
pub open spec fn longest_tiling(tokens: Seq<i64>, w: int, n: int) -> Option<int>
    decreases n,
{
    if n <= 0 {
        None
    } else if tiles(tokens, w, n) {
        Some(n)
    } else {
        longest_tiling(tokens, w, n - 1)
    }
}

/// What a detector looks for, and what it was fed.
#[verifier::ext_equal]
pub struct Watching {
    pub window: int,
    pub longest: int,
    pub tokens: Seq<i64>,
}

/// A detector after one more token.
pub open spec fn watched(s: Watching, token: i64) -> Watching {
    Watching { tokens: s.tokens.push(token), ..s }
}

/// Whether a loop is detected.
pub open spec fn loops(s: Watching) -> bool {
    longest_tiling(s.tokens, s.window, s.longest) is Some
}

proof fn lemma_run_length(tokens: Seq<i64>, p: int, cap: int)
    requires
        cap >= 0,
    ensures
        0 <= run_length(tokens, p, cap) <= cap,
        forall|k: int| 0 <= k < run_length(tokens, p, cap) ==> #[trigger] matches_back(tokens, p, k),
        run_length(tokens, p, cap) < cap ==> !matches_back(tokens, p, run_length(tokens, p, cap)),
    decreases cap,
{
    if cap > 0 {
        lemma_run_length(tokens, p, cap - 1);
    }
}

/// A run is as long as it is.
proof fn lemma_run_length_is(tokens: Seq<i64>, p: int, cap: int, r: int)
    requires
        0 <= r <= cap,
        forall|k: int| 0 <= k < r ==> #[trigger] matches_back(tokens, p, k),
        r < cap ==> !matches_back(tokens, p, r),
    ensures
        run_length(tokens, p, cap) == r,
{
    lemma_run_length(tokens, p, cap);
    let q = run_length(tokens, p, cap);
    if q < r {
        assert(matches_back(tokens, p, q));
    }
    if r < q {
        assert(matches_back(tokens, p, r));
    }
}

/// The run of a period after one more token.
proof fn lemma_run_next(tokens: Seq<i64>, p: int, cap: int, tok: i64)
    requires
        1 <= p,
        1 <= cap,
    ensures
        run_length(tokens.push(tok), p, cap) == if !matches_back(tokens.push(tok), p, 0) {
            0
        } else if run_length(tokens, p, cap) < cap {
            run_length(tokens, p, cap) + 1
        } else {
            cap
        },
{
    let next = tokens.push(tok);
    let r = run_length(tokens, p, cap);
    lemma_run_length(tokens, p, cap);
    assert forall|k: int| 0 <= k implies #[trigger] matches_back(next, p, k + 1) == matches_back(tokens, p, k) by {}
    if matches_back(next, p, 0) {
        let q = if r < cap {
            r + 1
        } else {
            cap
        };
        assert forall|k: int| 0 <= k < q implies #[trigger] matches_back(next, p, k) by {
            if k > 0 {
                assert(matches_back(tokens, p, k - 1));
                assert(matches_back(next, p, (k - 1) + 1));
            }
        }
        if q < cap {
            assert(matches_back(next, p, r + 1) == matches_back(tokens, p, r));
        }
        lemma_run_length_is(next, p, cap, q);
    } else {
        lemma_run_length_is(next, p, cap, 0);
    }
}

/// A run fills the window exactly where its period tiles it.
proof fn lemma_run_tiles(tokens: Seq<i64>, w: int, p: int)
    requires
        1 <= p < w,
    ensures
        (run_length(tokens, p, w - p) == w - p) == tiles(tokens, w, p),
{
    lemma_run_length(tokens, p, w - p);
    let n = tokens.len();
    if run_length(tokens, p, w - p) == w - p {
        assert(matches_back(tokens, p, w - p - 1));
        assert forall|i: int| n - w + p <= i < n implies #[trigger] tokens[i] == tokens[i - p] by {
            assert(matches_back(tokens, p, n - 1 - i));
        }
    } else {
        let k = run_length(tokens, p, w - p);
        if tiles(tokens, w, p) {
            let i = n - 1 - k;
            assert(tokens[i] == tokens[i - p]);
        }
    }
}

/// Streaming loop detector.
pub struct LoopDetector {
    w: usize,
    max_period: usize,
    /// The last `w` tokens, token `i` at `i % w`.
    buf: Vec<i64>,
    /// Where the next token goes.
    pos: usize,
    /// How many tokens there are, up to `w`.
    filled: usize,
    /// For each period, at the period less one: how long its run is, up to what fills the
    /// window.
    run: Vec<usize>,
    detected_period: Option<usize>,
    /// All tokens so far.
    tokens: Ghost<Seq<i64>>,
}

/// The window that a requested size gives.
pub open spec fn window_of(window_size: int) -> int {
    if window_size < 2 {
        2
    } else {
        window_size
    }
}

/// The longest period that a requested one gives, in a window of `w`.
pub open spec fn period_cap(w: int, max_period: Option<usize>) -> int {
    let asked = match max_period {
        Some(p) => p as int,
        None => w / 3,
    };
    let capped = if asked > w / 2 {
        w / 2
    } else {
        asked
    };
    if capped < 1 {
        1
    } else {
        capped
    }
}

impl LoopDetector {
    /// The size of the window.
    pub closed spec fn window(&self) -> int {
        self.w as int
    }

    /// The longest period.
    pub closed spec fn longest(&self) -> int {
        self.max_period as int
    }

    /// The tokens fed since the start or the last reset.
    pub closed spec fn tokens(&self) -> Seq<i64> {
        self.tokens@
    }

    /// The period reported.
    pub closed spec fn reported(&self) -> Option<usize> {
        self.detected_period
    }

    /// What the detector looks for, and what it was fed.
    pub open spec fn state(&self) -> Watching {
        Watching { window: self.window(), longest: self.longest(), tokens: self.tokens() }
    }

    /// What is true of every detector: among others, that it reports the longest period that
    /// tiles the window.
    pub closed spec fn inv(&self) -> bool {
        &&& self.held()
        &&& forall|p: int|
            1 <= p <= self.max_period ==> #[trigger] self.run@[p - 1] == run_length(self.tokens@, p, self.w - p)
        &&& self.reported_is(longest_tiling(self.tokens@, self.w as int, self.max_period as int))
    }

    /// The ring holds the last tokens.
    spec fn held(&self) -> bool {
        &&& 2 <= self.w
        &&& 1 <= self.max_period <= self.w / 2
        &&& self.buf@.len() == self.w
        &&& self.run@.len() == self.max_period
        &&& self.pos == self.tokens@.len() % (self.w as nat)
        &&& self.filled == if self.tokens@.len() < self.w {
            self.tokens@.len() as int
        } else {
            self.w as int
        }
        &&& forall|i: int|
            0 <= i < self.tokens@.len() && i >= self.tokens@.len() - self.w ==> self.buf@[i % (self.w as int)]
                == #[trigger] self.tokens@[i]
    }

    spec fn reported_is(&self, want: Option<int>) -> bool {
        match self.detected_period {
            Some(p) => want == Some(p as int),
            None => want is None,
        }
    }
}

impl LoopDetector {
    /// A detector for a window of `window_size` tokens. `max_period` is by default a third
    /// of the window, and at most half of it (no longer period can tile the window).
    pub fn new(window_size: i64, max_period: Option<usize>) -> (r: LoopDetector)
        requires
            window_size <= usize::MAX,
        ensures
            r.inv(),
            r.state() == (Watching {
                window: window_of(window_size as int),
                longest: period_cap(window_of(window_size as int), max_period),
                tokens: seq![],
            }),
            r.reported() is None,
    {
        let w: usize = if window_size < 2 {
            2
        } else {
            window_size as usize
        };
        let asked: usize = match max_period {
            Some(p) => p,
            None => w / 3,
        };
        let capped: usize = if asked > w / 2 {
            w / 2
        } else {
            asked
        };
        LoopDetector::started(
            w,
            if capped < 1 {
                1
            } else {
                capped
            },
        )
    }

    /// A detector that was fed nothing.
    fn started(w: usize, max_period: usize) -> (r: LoopDetector)
        requires
            2 <= w,
            1 <= max_period <= w / 2,
        ensures
            r.inv(),
            r.state() == (Watching { window: w as int, longest: max_period as int, tokens: seq![] }),
            r.reported() is None,
    {
        let mut buf: Vec<i64> = Vec::new();
        let mut i: usize = 0;
        while i < w
            invariant
                i <= w,
                buf@.len() == i,
            decreases w - i,
        {
            buf.push(0);
            i = i + 1;
        }
        let mut run: Vec<usize> = Vec::new();
        let mut k: usize = 0;
        while k < max_period
            invariant
                k <= max_period,
                run@.len() == k,
                forall|j: int| 0 <= j < k ==> run@[j] == 0,
            decreases max_period - k,
        {
            run.push(0);
            k = k + 1;
        }
        let r = LoopDetector {
            w,
            max_period,
            buf,
            pos: 0,
            filled: 0,
            run,
            detected_period: None,
            tokens: Ghost(Seq::empty()),
        };
        proof {
            assert forall|p: int| 1 <= p <= max_period implies #[trigger] r.run@[p - 1] == run_length(
                r.tokens@,
                p,
                w - p,
            ) by {
                lemma_run_length_is(r.tokens@, p, w - p, 0);
            }
            lemma_longest_tiling(r.tokens@, w as int, max_period as int);
        }
        r
    }

    /// Whether a loop is currently detected.
    pub fn detected(&self) -> (r: bool)
        ensures
            r == self.reported() is Some,
    {
        self.detected_period.is_some()
    }

    /// The period of the loop that is currently detected.
    pub fn period(&self) -> (r: Option<usize>)
        ensures
            r == self.reported(),
    {
        self.detected_period
    }

    /// Whether the newest token, at `at` in the ring, equals the one a period before it.
    fn matches_newest(&self, at: usize, p: usize) -> (r: bool)
        requires
            self.held(),
            self.tokens@.len() > 0,
            at == (self.tokens@.len() - 1) % (self.w as int),
            1 <= p < self.w,
        ensures
            r == matches_back(self.tokens@, p as int, 0),
    {
        if self.filled <= p {
            return false;
        }
        let b: usize = if at >= p {
            at - p
        } else {
            at + (self.w - p)
        };
        proof {
            let w = self.w as int;
            let i = self.tokens@.len() - 1;
            lemma_back(w, i, p as int);
            assert(self.buf@[i % w] == self.tokens@[i]);
            assert(self.buf@[(i - p) % w] == self.tokens@[i - p]);
        }
        self.buf[at] == self.buf[b]
    }

    /// Feed one token. Returns whether a loop is currently detected: whether some period tiles
    /// the last tokens, as many as the window has.
    pub fn feed(&mut self, token: i64) -> (r: bool)
        requires
            old(self).inv(),
        ensures
            final(self).inv(),
            final(self).state() == watched(old(self).state(), token),
            match final(self).reported() {
                Some(p) => longest_tiling(final(self).tokens(), old(self).window(), old(self).longest()) == Some(
                    p as int,
                ),
                None => longest_tiling(final(self).tokens(), old(self).window(), old(self).longest()) is None,
            },
            r == final(self).reported() is Some,
            r == loops(final(self).state()),
    {
        let ghost toks0 = self.tokens@;
        let ghost w = self.w as int;
        let ghost toks = toks0.push(token);
        let ghost buf0 = self.buf@;
        let ghost run0 = self.run@;
        let at: usize = self.pos;
        self.buf.set(at, token);
        self.pos = if at + 1 == self.w {
            0
        } else {
            at + 1
        };
        if self.filled < self.w {
            self.filled = self.filled + 1;
        }
        self.tokens = Ghost(toks);
        proof {
            lemma_step(w, toks0.len() as int);
            assert forall|i: int| 0 <= i < toks.len() && i >= toks.len() - w implies self.buf@[i % w]
                == #[trigger] toks[i] by {
                lemma_ring(w, i, toks0.len() as int);
                if i < toks0.len() {
                    assert(buf0[i % w] == toks0[i]);
                }
            }
        }
        let mut found: Option<usize> = None;
        let mut p: usize = 1;
        while p <= self.max_period
            invariant
                1 <= p <= self.max_period + 1,
                self.held(),
                self.max_period == old(self).max_period,
                self.w == old(self).w,
                w == self.w,
                self.tokens@ == toks,
                toks == toks0.push(token),
                at == toks0.len() % (w as nat),
                run0.len() == self.max_period,
                forall|q: int| 1 <= q <= self.max_period ==> #[trigger] run0[q - 1] == run_length(toks0, q, w - q),
                forall|q: int| 1 <= q < p ==> #[trigger] self.run@[q - 1] == run_length(toks, q, w - q),
                forall|q: int| p <= q <= self.max_period ==> #[trigger] self.run@[q - 1] == run0[q - 1],
                match found {
                    Some(f) => longest_tiling(toks, w, p - 1) == Some(f as int),
                    None => longest_tiling(toks, w, p - 1) is None,
                },
            decreases self.max_period + 1 - p,
        {
            let i: usize = p - 1;
            let cap: usize = self.w - p;
            proof {
                assert(self.run@[p - 1] == run0[p - 1]);
                assert(run0[p - 1] == run_length(toks0, p as int, w - p));
                lemma_run_length(toks0, p as int, w - p);
                lemma_run_next(toks0, p as int, w - p, token);
                lemma_run_tiles(toks, w, p as int);
            }
            let n: usize = if !self.matches_newest(at, p) {
                0
            } else if self.run[i] < cap {
                self.run[i] + 1
            } else {
                cap
            };
            self.run.set(i, n);
            if n == cap {
                found = Some(p);
            }
            p = p + 1;
        }
        self.detected_period = found;
        found.is_some()
    }

    /// Return to the start.
    pub fn reset(&mut self)
        requires
            old(self).inv(),
        ensures
            final(self).inv(),
            final(self).state() == (Watching { tokens: seq![], ..old(self).state() }),
            final(self).reported() is None,
    {
        let d = LoopDetector::started(self.w, self.max_period);
        *self = d;
    }
}

/// Of the places below `t` in the window that ends with `t`, none shares its slot with `t`.
proof fn lemma_ring(w: int, i: int, t: int)
    requires
        w > 0,
        0 <= i <= t,
        i > t - w,
    ensures
        0 <= i % w < w,
        0 <= t % w < w,
        i < t ==> i % w != t % w,
{
    vstd::arithmetic::div_mod::lemma_mod_bound(i, w);
    vstd::arithmetic::div_mod::lemma_mod_bound(t, w);
    if i < t && i % w == t % w {
        vstd::arithmetic::div_mod::lemma_fundamental_div_mod(i, w);
        vstd::arithmetic::div_mod::lemma_fundamental_div_mod(t, w);
        let d = t / w - i / w;
        assert(t - i == w * d) by (nonlinear_arith)
            requires
                i == w * (i / w) + i % w,
                t == w * (t / w) + t % w,
                i % w == t % w,
                d == t / w - i / w,
        ;
        assert(false) by (nonlinear_arith)
            requires
                t - i == w * d,
                0 < t - i < w,
        ;
    }
}

/// Where the token a period back is in the ring.
proof fn lemma_back(w: int, i: int, p: int)
    requires
        1 <= p < w,
        p <= i,
    ensures
        (i - p) % w == if i % w >= p {
            i % w - p
        } else {
            i % w + (w - p)
        },
{
    vstd::arithmetic::div_mod::lemma_fundamental_div_mod(i, w);
    vstd::arithmetic::div_mod::lemma_mod_bound(i, w);
    let q = i / w;
    if i % w >= p {
        assert(q * w == w * q) by (nonlinear_arith);
        vstd::arithmetic::div_mod::lemma_fundamental_div_mod_converse(i - p, w, q, i % w - p);
    } else {
        assert((q - 1) * w == w * q - w) by (nonlinear_arith);
        vstd::arithmetic::div_mod::lemma_fundamental_div_mod_converse(i - p, w, q - 1, i % w + (w - p));
    }
}

/// Where the next token is in the ring.
proof fn lemma_step(w: int, n: int)
    requires
        1 <= w,
        0 <= n,
    ensures
        (n + 1) % w == if n % w + 1 == w {
            0
        } else {
            n % w + 1
        },
{
    vstd::arithmetic::div_mod::lemma_fundamental_div_mod(n, w);
    vstd::arithmetic::div_mod::lemma_mod_bound(n, w);
    let q = n / w;
    if n % w + 1 == w {
        assert((q + 1) * w == w * q + w) by (nonlinear_arith);
        vstd::arithmetic::div_mod::lemma_fundamental_div_mod_converse(n + 1, w, q + 1, 0);
    } else {
        assert(q * w == w * q) by (nonlinear_arith);
        vstd::arithmetic::div_mod::lemma_fundamental_div_mod_converse(n + 1, w, q, n % w + 1);
    }
}

proof fn lemma_longest_tiling(tokens: Seq<i64>, w: int, n: int)
    ensures
        match longest_tiling(tokens, w, n) {
            Some(p) => 1 <= p <= n && tiles(tokens, w, p) && forall|q: int| p < q <= n ==> !#[trigger] tiles(tokens, w, q),
            None => forall|q: int| 1 <= q <= n ==> !#[trigger] tiles(tokens, w, q),
        },
    decreases n,
{
    if n > 0 && !tiles(tokens, w, n) {
        lemma_longest_tiling(tokens, w, n - 1);
    }
}

/// A loop is detected if and only if some admitted period tiles the last window of tokens.
pub proof fn loops_are_tiled_windows(s: Watching)
    ensures
        loops(s) <==> exists|p: int| 1 <= p <= s.longest && #[trigger] tiles(s.tokens, s.window, p),
{
    lemma_longest_tiling(s.tokens, s.window, s.longest);
}

/// A detector reports a loop if and only if there is one, and the longest period that tiles the
/// window.
pub proof fn reports_are_exact(d: LoopDetector)
    requires
        d.inv(),
    ensures
        (d.reported() is Some) == loops(d.state()),
        d.reported() matches Some(p) ==> {
            &&& 1 <= p <= d.longest()
            &&& tiles(d.tokens(), d.window(), p as int)
            &&& forall|q: int| p < q <= d.longest() ==> !#[trigger] tiles(d.tokens(), d.window(), q)
        },
{
    lemma_longest_tiling(d.tokens(), d.window(), d.longest());
}

/// Nothing is reported before the window is full.
pub proof fn nothing_is_reported_early(d: LoopDetector)
    requires
        d.inv(),
        d.tokens().len() < d.window(),
    ensures
        d.reported() is None,
{
    lemma_longest_tiling(d.tokens(), d.window(), d.longest());
}

/// A loop of a window and one period more was reported before, and still is.
pub proof fn long_loops_are_reported(d: LoopDetector, p: int)
    requires
        d.inv(),
        1 <= p <= d.longest(),
        d.tokens().len() >= d.window() + p,
        repeats(d.tokens(), p, d.window() + p),
    ensures
        d.reported() is Some,
        d.reported()->0 >= p,
{
    lemma_longest_tiling(d.tokens(), d.window(), d.longest());
    let n = d.tokens().len();
    assert(tiles(d.tokens(), d.window(), p)) by {
        assert forall|i: int| n - d.window() + p <= i < n implies #[trigger] d.tokens()[i] == d.tokens()[i - p] by {
            assert(matches_back(d.tokens(), p, n - 1 - i));
        }
    }
}

/// What a detector becomes when it is fed tokens.
pub open spec fn watched_all(s: Watching, tokens: Seq<i64>) -> Watching {
    Watching { tokens: s.tokens + tokens, ..s }
}

/// A detector after a reset reports, whatever it is fed, what a new one reports.
pub proof fn reset_detectors_start_anew(d: LoopDetector, f: LoopDetector, s: Watching, tokens: Seq<i64>)
    requires
        d.inv(),
        f.inv(),
        s.tokens == Seq::<i64>::empty(),
        d.state() == watched_all(s, tokens),
        f.state() == watched_all(s, tokens),
    ensures
        d.reported() == f.reported(),
{
}

/// Feeding tokens one by one is feeding them all.
pub proof fn tokens_are_fed_in_turn(s: Watching, tokens: Seq<i64>, token: i64)
    ensures
        watched_all(s, seq![]) == s,
        watched(watched_all(s, tokens), token) == watched_all(s, tokens.push(token)),
{
    assert(s.tokens + Seq::<i64>::empty() =~= s.tokens);
    assert(s.tokens + tokens.push(token) =~= (s.tokens + tokens).push(token));
}

} // verus!
