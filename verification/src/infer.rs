//! One sequence at a time: how large its cache is, how its prompt is ingested, and how it is
//! decoded, token by token or with drafts.
use vstd::prelude::*;
use crate::config::ArchKind;
use crate::filter::json_schema::lemma_decimal_digits;
use crate::generator::verify::{accept_prefix, accepted, confirmed, lemma_confirmed};
use crate::text::{chars_of, decimal, digit, same_chars, string_of, trim, trimmed};

verus! {

/// A letter of the ASCII alphabet in upper case; any other character as it is.
pub open spec fn upper(c: char) -> char {
    if 'a' <= c <= 'z' {
        ((c as int) - 32) as char
    } else {
        c
    }
}

/// A mode as it is compared: without white space around it, in upper case.
pub open spec fn mode_of(s: Seq<char>) -> Seq<char> {
    Seq::new(trim(s).len(), |i: int| upper(trim(s)[i]))
}

/// How many bits a mode stands for; 0 where the cache is not packed.
pub open spec fn mode_bits(m: Seq<char>) -> Option<i64> {
    if m == "FP16"@ || m == "F16"@ || m == ""@ {
        Some(0)
    } else if m == "Q8"@ || m == "8"@ {
        Some(8)
    } else if m == "Q6"@ || m == "6"@ {
        Some(6)
    } else if m == "Q4"@ || m == "4"@ {
        Some(4)
    } else if m == "Q3"@ || m == "3"@ {
        Some(3)
    } else if m == "Q2"@ || m == "2"@ {
        Some(2)
    } else {
        None
    }
}

fn is_mode(m: &Vec<char>, name: &str) -> (r: bool)
    ensures
        r == (m@ == name@),
{
    let n = chars_of(name);
    same_chars(m, &n)
}

/// How many bits a cache mode stands for; 0 where the cache is not packed. An unknown mode comes
/// back as it was compared.
pub fn cache_mode_bits(s: &str) -> (r: Result<i64, String>)
    ensures
        match r {
            Ok(bits) => mode_bits(mode_of(s@)) == Some(bits),
            Err(m) => mode_bits(mode_of(s@)) is None && m@ == mode_of(s@),
        },
{
    let all = chars_of(s);
    let t = trimmed(&all);
    let mut m: Vec<char> = Vec::new();
    let mut i: usize = 0;
    while i < t.len()
        invariant
            i <= t.len(),
            m@ == Seq::new(i as nat, |j: int| upper(t@[j])),
        decreases t.len() - i,
    {
        let c: char = t[i];
        let u: char = if 'a' <= c && c <= 'z' {
            (c as u8 - 32) as char
        } else {
            c
        };
        m.push(u);
        i = i + 1;
        assert(m@ =~= Seq::new(i as nat, |j: int| upper(t@[j])));
    }
    assert(m@ =~= mode_of(s@));
    if is_mode(&m, "FP16") || is_mode(&m, "F16") || is_mode(&m, "") {
        Ok(0)
    } else if is_mode(&m, "Q8") || is_mode(&m, "8") {
        Ok(8)
    } else if is_mode(&m, "Q6") || is_mode(&m, "6") {
        Ok(6)
    } else if is_mode(&m, "Q4") || is_mode(&m, "4") {
        Ok(4)
    } else if is_mode(&m, "Q3") || is_mode(&m, "3") {
        Ok(3)
    } else if is_mode(&m, "Q2") || is_mode(&m, "2") {
        Ok(2)
    } else {
        Err(string_of(&m))
    }
}

/// How many tokens a cache is made for: as many as are asked for, but no fewer than `least`; and
/// `wanted` where nothing is asked for.
pub fn cache_len(asked: Option<i64>, least: i64, wanted: i64) -> (r: i64)
    ensures
        r == match asked {
            Some(m) => if m <= 0 {
                wanted
            } else if m >= least {
                m
            } else {
                least
            },
            None => wanted,
        },
{
    match asked {
        Some(m) => if m <= 0 {
            wanted
        } else if m >= least {
            m
        } else {
            least
        },
        None => wanted,
    }
}

/// How many tokens the cache of a plain run is made for.
pub fn plain_len(asked: Option<i64>, prompt_len: i64, max_new: i64) -> (r: i64)
    requires
        0 <= prompt_len,
        0 <= max_new,
        prompt_len + max_new + 8 <= i64::MAX,
    ensures
        r >= prompt_len + 8,
        r == match asked {
            Some(m) => if m <= 0 {
                prompt_len + max_new + 8
            } else if m >= prompt_len + 8 {
                m as int
            } else {
                prompt_len + 8
            },
            None => prompt_len + max_new + 8,
        },
{
    cache_len(asked, prompt_len + 8, prompt_len + max_new + 8)
}

/// How many tokens the cache of a run with drafts is made for, `slack` of them for a draft.
pub fn drafted_len(asked: Option<i64>, prompt_len: i64, max_new: i64, slack: i64) -> (r: i64)
    requires
        0 <= prompt_len,
        0 <= max_new,
        0 <= slack,
        prompt_len + max_new + slack + 8 <= i64::MAX,
    ensures
        r >= prompt_len + max_new + slack + 8,
        r == match asked {
            Some(m) => if m >= prompt_len + max_new + slack + 8 {
                m as int
            } else {
                prompt_len + max_new + slack + 8
            },
            None => prompt_len + max_new + slack + 8,
        },
{
    let n: i64 = prompt_len + max_new + slack + 8;
    cache_len(asked, n, n)
}

/// Which cache a run has.
#[derive(Clone, Copy, Debug, PartialEq, Eq, Structural)]
pub enum CacheChoice {
    Plain,
    Quant,
    Hybrid,
    /// In one piece, for sparse attention.
    Whole,
}

/// Which cache a model has, for this many bits; only a plain one can be packed.
pub fn choose_cache(arch: ArchKind, cache_bits: i64) -> (r: CacheChoice)
    ensures
        r == if arch == ArchKind::Qwen4Exp {
            CacheChoice::Whole
        } else if arch == ArchKind::Qwen35 {
            CacheChoice::Hybrid
        } else if cache_bits > 0 {
            CacheChoice::Quant
        } else {
            CacheChoice::Plain
        },
{
    if arch == ArchKind::Qwen4Exp {
        CacheChoice::Whole
    } else if arch == ArchKind::Qwen35 {
        CacheChoice::Hybrid
    } else if cache_bits > 0 {
        CacheChoice::Quant
    } else {
        CacheChoice::Plain
    }
}

/// Whether a decode step can be captured once and replayed: nothing in it may go through the
/// host or change its shape.
pub fn can_capture(off: bool, cache: CacheChoice, moe: bool, moe_fused: bool) -> (r: bool)
    ensures
        r == (!off && (cache == CacheChoice::Plain || cache == CacheChoice::Hybrid) && (!moe || moe_fused)),
{
    !off && (cache == CacheChoice::Plain || cache == CacheChoice::Hybrid) && (!moe || moe_fused)
}

/// How many chunks a prompt is ingested in.
pub open spec fn chunk_count(len: int, chunk: int) -> int {
    (len + chunk - 1) / chunk
}

/// The chunk size: as asked for, or all at once.
pub open spec fn chunk_size(len: int, asked: int) -> int {
    if asked > 0 {
        asked
    } else if len >= 1 {
        len
    } else {
        1
    }
}

/// The chunks that a prompt is ingested in: where each starts, and how long it is.
pub fn prefill_chunks(len: i64, asked: i64) -> (r: Vec<(i64, i64)>)
    requires
        0 <= len,
        len + chunk_size(len as int, asked as int) <= i64::MAX,
    ensures
        ({
            let c = chunk_size(len as int, asked as int);
            r@ == Seq::new(
                chunk_count(len as int, c) as nat,
                |i: int|
                    (
                        (i * c) as i64,
                        (if len - i * c <= c {
                            len - i * c
                        } else {
                            c
                        }) as i64,
                    ),
            )
        }),
{
    let chunk: i64 = if asked > 0 {
        asked
    } else if len >= 1 {
        len
    } else {
        1
    };
    let ghost c = chunk as int;
    let ghost n = chunk_count(len as int, c);
    let ghost all = Seq::new(
        n as nat,
        |i: int|
            (
                (i * c) as i64,
                (if len - i * c <= c {
                    len - i * c
                } else {
                    c
                }) as i64,
            ),
    );
    let mut r: Vec<(i64, i64)> = Vec::new();
    let mut off: i64 = 0;
    let ghost mut k: int = 0;
    proof {
        assert(0 * c == 0);
        assert(n >= 0) by (nonlinear_arith)
            requires
                n == (len + c - 1) / c,
                len >= 0,
                c >= 1,
        ;
    }
    while off < len
        invariant
            0 <= len,
            c == chunk,
            c >= 1,
            len + c <= i64::MAX,
            n == chunk_count(len as int, c),
            n >= 0,
            0 <= k,
            r@.len() == k,
            off == if k * c <= len {
                k * c
            } else {
                len as int
            },
            k > 0 ==> (k - 1) * c < len,
            forall|i: int|
                0 <= i < k ==> #[trigger] r@[i] == (
                    (i * c) as i64,
                    (if len - i * c <= c {
                        len - i * c
                    } else {
                        c
                    }) as i64,
                ),
        decreases len - off,
    {
        let m: i64 = if len - off <= chunk {
            len - off
        } else {
            chunk
        };
        r.push((off, m));
        off = off + m;
        proof {
            assert((k + 1) * c == k * c + c) by (nonlinear_arith);
            k = k + 1;
        }
    }
    proof {
        assert(k == n) by (nonlinear_arith)
            requires
                n == (len + c - 1) / c,
                c >= 1,
                0 <= k,
                len >= 0,
                k * c >= len,
                k > 0 ==> (k - 1) * c < len,
        ;
        assert(r@ =~= all);
    }
    r
}

/// The tokens that plain decoding emits behind `seq`, when `c` is next: up to `left` of them,
/// and none from the first end on. `next` is the model.
pub open spec fn plain_out(next: spec_fn(Seq<i64>) -> i64, seq: Seq<i64>, c: i64, left: nat, eos: Seq<i64>) -> Seq<i64>
    decreases left,
{
    if left == 0 || eos.contains(c) {
        seq![]
    } else {
        seq![c] + plain_out(next, seq.push(c), next(seq.push(c)), (left - 1) as nat, eos)
    }
}

/// The leading tokens of these that are emitted: up to `left`, and none from the first end on.
pub open spec fn cut(tokens: Seq<i64>, left: nat, eos: Seq<i64>) -> Seq<i64>
    decreases tokens.len(),
{
    if tokens.len() == 0 || left == 0 || eos.contains(tokens[0]) {
        seq![]
    } else {
        seq![tokens[0]] + cut(tokens.drop_first(), (left - 1) as nat, eos)
    }
}

/// A run that decodes with drafts.
pub struct SpecRun {
    next: i64,
    place: i64,
    left: usize,
    done: bool,
    drafted: u64,
    confirmed: u64,
}

/// The state of a run that decodes with drafts.
#[verifier::ext_equal]
pub struct Running {
    /// The token to be emitted and fed next.
    pub next: i64,
    /// The place at which it is fed.
    pub place: int,
    /// How many tokens may still be emitted.
    pub left: nat,
    /// Whether nothing more is emitted.
    pub done: bool,
    /// How many tokens were drafted, and how many of them were confirmed.
    pub drafted: int,
    pub confirmed: int,
}

/// What to do next in a run.
#[derive(Clone, Copy, Debug, PartialEq, Eq, Structural)]
pub enum Turn {
    Stop,
    /// Emit this token; the run is over then.
    Last { emit: i64 },
    /// Draft so many tokens, and verify them.
    Draft { n: i64 },
}

/// What came of a round.
pub struct Round {
    /// The tokens that are emitted.
    pub emit: Vec<i64>,
    /// How many places of the pass are kept, of the whole pass: the rest is taken back.
    pub keep: i64,
    /// What the model itself said: the confirmed tokens, and the one behind them.
    pub committed: Vec<i64>,
}

/// How many tokens are drafted at a place of a cache.
pub open spec fn draft_count(place: int, n_draft: int, max_len: int) -> int {
    let n = if n_draft <= max_len - place - 1 {
        n_draft
    } else {
        max_len - place - 1
    };
    if n >= 1 {
        n
    } else {
        1
    }
}

/// The state after a round: of the token fed, the draft and what the model said at each place.
pub open spec fn after_round(s: Running, draft: Seq<i64>, verified: Seq<i64>, eos: Seq<i64>) -> Running {
    let k = confirmed(draft, verified);
    let tokens = seq![s.next] + verified.take(k);
    let out = cut(tokens, s.left, eos);
    Running {
        next: verified[k],
        place: s.place + k + 1,
        left: (s.left - out.len()) as nat,
        done: out.len() < tokens.len(),
        drafted: s.drafted + draft.len(),
        confirmed: s.confirmed + k,
    }
}

proof fn lemma_cut(tokens: Seq<i64>, left: nat, eos: Seq<i64>)
    ensures
        cut(tokens, left, eos).len() <= left,
        cut(tokens, left, eos).len() <= tokens.len(),
        cut(tokens, left, eos) == tokens.take(cut(tokens, left, eos).len() as int),
        forall|i: int| 0 <= i < cut(tokens, left, eos).len() ==> !eos.contains(#[trigger] tokens[i]),
        cut(tokens, left, eos).len() < tokens.len() && cut(tokens, left, eos).len() < left ==> eos.contains(
            tokens[cut(tokens, left, eos).len() as int],
        ),
    decreases tokens.len(),
{
    if tokens.len() == 0 || left == 0 || eos.contains(tokens[0]) {
        assert(tokens.take(0) =~= seq![]);
    } else {
        let rest = tokens.drop_first();
        let more = cut(rest, (left - 1) as nat, eos);
        lemma_cut(rest, (left - 1) as nat, eos);
        let all = cut(tokens, left, eos);
        assert(all =~= tokens.take(all.len() as int)) by {
            assert forall|i: int| 0 <= i < all.len() implies all[i] == tokens[i] by {
                if i > 0 {
                    assert(more[i - 1] == rest.take(more.len() as int)[i - 1]);
                }
            }
        }
        assert forall|i: int| 0 <= i < all.len() implies !eos.contains(#[trigger] tokens[i]) by {
            if i > 0 {
                assert(!eos.contains(rest[i - 1]));
            }
        }
        if more.len() < rest.len() {
            assert(rest[more.len() as int] == tokens[all.len() as int]);
        }
    }
}

proof fn lemma_cut_is(tokens: Seq<i64>, left: nat, eos: Seq<i64>, n: int)
    requires
        0 <= n <= tokens.len(),
        n <= left,
        forall|i: int| 0 <= i < n ==> !eos.contains(#[trigger] tokens[i]),
        n == left || n == tokens.len() || eos.contains(tokens[n]),
    ensures
        cut(tokens, left, eos) == tokens.take(n),
{
    lemma_cut(tokens, left, eos);
    let m = cut(tokens, left, eos).len() as int;
    if m < n {
        assert(!eos.contains(tokens[m]));
    }
    if n < m {
        assert(!eos.contains(tokens[n]));
    }
}

/// A chain of greedy tokens is what plain decoding emits.
proof fn lemma_chain(
    next: spec_fn(Seq<i64>) -> i64,
    seq: Seq<i64>,
    tokens: Seq<i64>,
    behind: i64,
    left: nat,
    eos: Seq<i64>,
)
    requires
        tokens.len() > 0,
        forall|i: int| 1 <= i < tokens.len() ==> #[trigger] tokens[i] == next(seq + tokens.take(i)),
        behind == next(seq + tokens),
    ensures
        ({
            let out = cut(tokens, left, eos);
            plain_out(next, seq, tokens[0], left, eos) == out + if out.len() < tokens.len() {
                seq![]
            } else {
                plain_out(next, seq + tokens, behind, (left - tokens.len()) as nat, eos)
            }
        }),
    decreases tokens.len(),
{
    let c = tokens[0];
    let out = cut(tokens, left, eos);
    if left == 0 || eos.contains(c) {
    } else if tokens.len() == 1 {
        assert(tokens =~= seq![c]);
        assert(seq + tokens =~= seq.push(c));
        assert(cut(tokens.drop_first(), (left - 1) as nat, eos) =~= Seq::<i64>::empty());
        assert(out =~= seq![c]);
    } else {
        let rest = tokens.drop_first();
        let s = seq.push(c);
        assert(seq + tokens.take(1) =~= s);
        assert(tokens[1] == next(s));
        assert forall|i: int| 1 <= i < rest.len() implies #[trigger] rest[i] == next(s + rest.take(i)) by {
            assert(tokens[i + 1] == next(seq + tokens.take(i + 1)));
            assert(seq + tokens.take(i + 1) =~= s + rest.take(i));
        }
        assert(s + rest =~= seq + tokens);
        lemma_chain(next, s, rest, behind, (left - 1) as nat, eos);
        let more = cut(rest, (left - 1) as nat, eos);
        assert(out == seq![c] + more);
        let tail = if more.len() < rest.len() {
            seq![]
        } else {
            plain_out(next, s + rest, behind, (left - 1 - rest.len()) as nat, eos)
        };
        assert(seq![c] + (more + tail) =~= out + tail);
    }
}

/// Drafting changes nothing: what a round emits, and what plain decoding emits behind it, is what
/// plain decoding emits. `next` is the model, and `verified` is what it says behind the token fed
/// and each part of the draft.
pub proof fn drafting_emits_what_plain_decoding_does(
    next: spec_fn(Seq<i64>) -> i64,
    seq: Seq<i64>,
    s: Running,
    draft: Seq<i64>,
    verified: Seq<i64>,
    eos: Seq<i64>,
)
    requires
        verified.len() == draft.len() + 1,
        forall|j: int| 0 <= j < verified.len() ==> #[trigger] verified[j] == next(seq.push(s.next) + draft.take(j)),
    ensures
        ({
            let k = confirmed(draft, verified);
            let tokens = seq![s.next] + verified.take(k);
            let t = after_round(s, draft, verified, eos);
            plain_out(next, seq, s.next, s.left, eos) == cut(tokens, s.left, eos) + if t.done {
                seq![]
            } else {
                plain_out(next, seq + tokens, t.next, t.left, eos)
            }
        }),
{
    lemma_confirmed(draft, verified);
    let k = confirmed(draft, verified);
    let tokens = seq![s.next] + verified.take(k);
    let fed = seq.push(s.next);
    assert forall|i: int| 1 <= i < tokens.len() implies #[trigger] tokens[i] == next(seq + tokens.take(i)) by {
        let j = i - 1;
        assert(tokens[i] == verified[j]);
        assert(draft.take(j) =~= verified.take(j));
        assert(seq + tokens.take(i) =~= fed + draft.take(j));
    }
    assert(draft.take(k) =~= verified.take(k));
    assert(seq + tokens =~= fed + draft.take(k));
    lemma_chain(next, seq, tokens, verified[k], s.left, eos);
    lemma_cut(tokens, s.left, eos);
}

/// The last token of a run is what plain decoding emits last, where no more may be emitted.
pub proof fn last_tokens_are_plain(next: spec_fn(Seq<i64>) -> i64, seq: Seq<i64>, s: Running, eos: Seq<i64>)
    requires
        s.left == 1,
        !eos.contains(s.next),
    ensures
        plain_out(next, seq, s.next, s.left, eos) == seq![s.next],
{
    let more = plain_out(next, seq.push(s.next), next(seq.push(s.next)), 0, eos);
    assert(more =~= Seq::<i64>::empty());
    assert(plain_out(next, seq, s.next, s.left, eos) =~= seq![s.next]);
}

/// What the model says behind a token fed and each part of a draft.
pub open spec fn verdicts(next: spec_fn(Seq<i64>) -> i64, fed: Seq<i64>, draft: Seq<i64>) -> Seq<i64> {
    Seq::new(draft.len() + 1, |j: int| next(fed + draft.take(j)))
}

/// What a run emits over some rounds, one draft for each, and its state behind them.
pub open spec fn emitted(
    next: spec_fn(Seq<i64>) -> i64,
    seq: Seq<i64>,
    s: Running,
    drafts: Seq<Seq<i64>>,
    eos: Seq<i64>,
) -> (Seq<i64>, Seq<i64>, Running)
    decreases drafts.len(),
{
    if drafts.len() == 0 || s.done {
        (seq![], seq, s)
    } else {
        let draft = drafts[0];
        let verified = verdicts(next, seq.push(s.next), draft);
        let tokens = seq![s.next] + verified.take(confirmed(draft, verified));
        let t = after_round(s, draft, verified, eos);
        let (more, end, u) = emitted(next, seq + tokens, t, drafts.drop_first(), eos);
        (cut(tokens, s.left, eos) + more, end, u)
    }
}

/// However a run drafts, it emits what plain decoding does: all of it once it is over, and a
/// beginning before.
pub proof fn runs_emit_what_plain_decoding_does(
    next: spec_fn(Seq<i64>) -> i64,
    seq: Seq<i64>,
    s: Running,
    drafts: Seq<Seq<i64>>,
    eos: Seq<i64>,
)
    requires
        !s.done,
    ensures
        ({
            let (out, end, u) = emitted(next, seq, s, drafts, eos);
            plain_out(next, seq, s.next, s.left, eos) == out + if u.done {
                seq![]
            } else {
                plain_out(next, end, u.next, u.left, eos)
            }
        }),
    decreases drafts.len(),
{
    if drafts.len() == 0 {
        let all = plain_out(next, seq, s.next, s.left, eos);
        assert(Seq::<i64>::empty() + all =~= all);
    } else {
        let draft = drafts[0];
        let verified = verdicts(next, seq.push(s.next), draft);
        let tokens = seq![s.next] + verified.take(confirmed(draft, verified));
        let t = after_round(s, draft, verified, eos);
        drafting_emits_what_plain_decoding_does(next, seq, s, draft, verified, eos);
        let (more, end, u) = emitted(next, seq + tokens, t, drafts.drop_first(), eos);
        let first = cut(tokens, s.left, eos);
        if t.done {
            assert(more =~= Seq::<i64>::empty());
            assert(first + more =~= first);
        } else {
            runs_emit_what_plain_decoding_does(next, seq + tokens, t, drafts.drop_first(), eos);
            let tail = if u.done {
                seq![]
            } else {
                plain_out(next, end, u.next, u.left, eos)
            };
            assert(first + (more + tail) =~= (first + more) + tail);
        }
    }
}

fn is_eos(eos: &Vec<i64>, t: i64) -> (r: bool)
    ensures
        r == eos@.contains(t),
{
    let mut i: usize = 0;
    while i < eos.len()
        invariant
            i <= eos.len(),
            forall|j: int| 0 <= j < i ==> #[trigger] eos@[j] != t,
        decreases eos.len() - i,
    {
        if eos[i] == t {
            assert(eos@[i as int] == t);
            return true;
        }
        i = i + 1;
    }
    false
}

impl SpecRun {
    /// The state.
    pub closed spec fn state(&self) -> Running {
        Running {
            next: self.next,
            place: self.place as int,
            left: self.left as nat,
            done: self.done,
            drafted: self.drafted as int,
            confirmed: self.confirmed as int,
        }
    }

    /// A run behind a prompt, when the model says `next`.
    pub fn new(next: i64, prompt_len: i64, max_new: usize) -> (r: SpecRun)
        ensures
            r.state() == (Running {
                next,
                place: prompt_len as int,
                left: max_new as nat,
                done: false,
                drafted: 0,
                confirmed: 0,
            }),
    {
        SpecRun { next, place: prompt_len, left: max_new, done: false, drafted: 0, confirmed: 0 }
    }

    /// The token to be fed next.
    pub fn next(&self) -> (r: i64)
        ensures
            r == self.state().next,
    {
        self.next
    }

    /// The place at which it is fed.
    pub fn place(&self) -> (r: i64)
        ensures
            r == self.state().place,
    {
        self.place
    }

    /// How many tokens were drafted, and how many of them were confirmed.
    pub fn counts(&self) -> (r: (u64, u64))
        ensures
            r.0 == self.state().drafted,
            r.1 == self.state().confirmed,
    {
        (self.drafted, self.confirmed)
    }

    /// What to do next: nothing where the run is over, emit a last token where no more may be
    /// emitted or fit in the cache, or draft as many as fit.
    pub fn turn(&mut self, n_draft: i64, max_len: i64, eos: &Vec<i64>) -> (r: Turn)
        requires
            0 <= old(self).state().place <= max_len,
        ensures
            ({
                let s = old(self).state();
                if s.done || s.left == 0 || eos@.contains(s.next) {
                    r == Turn::Stop && final(self).state() == s
                } else if s.left == 1 || s.place + 2 >= max_len {
                    r == (Turn::Last { emit: s.next }) && final(self).state() == (Running {
                        left: (s.left - 1) as nat,
                        done: true,
                        ..s
                    })
                } else {
                    &&& r == (Turn::Draft { n: draft_count(s.place, n_draft as int, max_len as int) as i64 })
                    &&& final(self).state() == s
                }
            }),
    {
        if self.done || self.left == 0 || is_eos(eos, self.next) {
            return Turn::Stop;
        }
        let room: i64 = max_len - self.place - 1;
        if self.left == 1 || room <= 1 {
            self.left = self.left - 1;
            self.done = true;
            return Turn::Last { emit: self.next };
        }
        let n: i64 = if n_draft <= room {
            n_draft
        } else {
            room
        };
        Turn::Draft {
            n: if n >= 1 {
                n
            } else {
                1
            },
        }
    }

    /// Take what the model said of a draft: `verified[j]` behind the token fed and the first `j`
    /// of the draft.
    pub fn round(&mut self, draft: &Vec<i64>, verified: &Vec<i64>, eos: &Vec<i64>) -> (r: Round)
        requires
            verified.len() == draft.len() + 1,
            old(self).state().place + draft.len() + 1 <= i64::MAX,
            old(self).state().drafted + draft.len() <= u64::MAX,
            old(self).state().confirmed + draft.len() <= u64::MAX,
            draft.len() < i64::MAX,
        ensures
            final(self).state() == after_round(old(self).state(), draft@, verified@, eos@),
            r.emit@ == cut(
                seq![old(self).state().next] + verified@.take(confirmed(draft@, verified@)),
                old(self).state().left,
                eos@,
            ),
            r.keep == confirmed(draft@, verified@) + 1,
            r.committed@ == accepted(draft@, verified@),
    {
        proof {
            lemma_confirmed(draft@, verified@);
        }
        let ghost s = self.state();
        let ghost kk = confirmed(draft@, verified@);
        let committed = accept_prefix(draft, verified);
        let k: usize = committed.len() - 1;
        let ghost tokens = seq![s.next] + verified@.take(kk);
        let mut emit: Vec<i64> = Vec::new();
        let mut open: bool = true;
        let mut i: usize = 0;
        while i <= k && open
            invariant
                k == kk,
                kk == confirmed(draft@, verified@),
                k < draft.len() + 1,
                verified.len() == draft.len() + 1,
                committed@ == accepted(draft@, verified@),
                committed.len() == k + 1,
                tokens == seq![s.next] + verified@.take(kk),
                tokens.len() == k + 1,
                self.next == s.next,
                self.left == s.left,
                i <= k + 1,
                emit.len() == i || (!open && emit.len() == i - 1),
                emit.len() <= s.left,
                emit@ == tokens.take(emit@.len() as int),
                forall|j: int| 0 <= j < emit@.len() ==> !eos@.contains(#[trigger] tokens[j]),
                !open ==> emit.len() == s.left || eos@.contains(tokens[emit@.len() as int]),
                !open ==> emit.len() <= k,
            decreases k + 1 - i,
        {
            let t: i64 = if i == 0 {
                self.next
            } else {
                committed[i - 1]
            };
            proof {
                if i > 0 {
                    assert(committed@[i - 1] == verified@[i - 1]);
                    assert(tokens[i as int] == verified@[i - 1]);
                }
                assert(t == tokens[i as int]);
            }
            if emit.len() == self.left || is_eos(eos, t) {
                open = false;
            } else {
                emit.push(t);
                assert(emit@ =~= tokens.take(emit@.len() as int));
            }
            i = i + 1;
        }
        proof {
            lemma_cut_is(tokens, s.left, eos@, emit@.len() as int);
        }
        self.done = !open;
        self.next = committed[k];
        self.place = self.place + (k as i64 + 1);
        self.left = self.left - emit.len();
        self.drafted = self.drafted + draft.len() as u64;
        self.confirmed = self.confirmed + k as u64;
        Round { emit, keep: k as i64 + 1, committed }
    }
}

/// What to do with the next token of a plain run.
#[derive(Clone, Copy, Debug, PartialEq, Eq, Structural)]
pub enum Step {
    Stop,
    /// Feed it, and emit it before where that is said.
    Feed { emit: bool },
}

/// A plain run. Where the last token of the prompt was held back, it is fed first and not
/// emitted.
pub struct PlainRun {
    steps: usize,
    held: bool,
    generated: usize,
}

impl PlainRun {
    /// How many steps are left, whether a token of the prompt is held back, and how many tokens
    /// were emitted.
    pub closed spec fn state(&self) -> (nat, bool, nat) {
        (self.steps as nat, self.held, self.generated as nat)
    }

    /// A run of up to `max_new` tokens.
    pub fn new(max_new: usize, held_back: bool) -> (r: PlainRun)
        requires
            max_new < usize::MAX,
        ensures
            r.state() == ((max_new + if held_back {
                1int
            } else {
                0int
            }) as nat, held_back, 0nat),
    {
        PlainRun {
            steps: if held_back {
                max_new + 1
            } else {
                max_new
            },
            held: held_back,
            generated: 0,
        }
    }

    /// How many tokens were emitted.
    pub fn generated(&self) -> (r: usize)
        ensures
            r == self.state().2,
    {
        self.generated
    }

    /// What to do with the next token.
    pub fn step(&mut self, next: i64, eos: &Vec<i64>) -> (r: Step)
        requires
            old(self).state().2 < usize::MAX,
        ensures
            ({
                let (steps, held, generated) = old(self).state();
                if steps == 0 || (eos@.contains(next) && !held) {
                    r == Step::Stop && final(self).state() == old(self).state()
                } else {
                    r == (Step::Feed { emit: !held }) && final(self).state() == ((steps - 1) as nat, false, (
                    generated + if held {
                        0int
                    } else {
                        1int
                    }) as nat)
                }
            }),
    {
        if self.steps == 0 || (is_eos(eos, next) && !self.held) {
            return Step::Stop;
        }
        self.steps = self.steps - 1;
        let emit = !self.held;
        if emit {
            self.generated = self.generated + 1;
        }
        self.held = false;
        Step::Feed { emit }
    }
}

/// Chunks tile a prompt: the first starts at its start, each of the others where the one before
/// it ends, and the last ends at its end; none is empty or longer than the chunk size.
pub proof fn chunks_tile_the_prompt(len: int, c: int, i: int)
    requires
        0 <= len,
        1 <= c,
        0 <= i,
    ensures
        i < chunk_count(len, c) <==> i * c < len,
        i + 1 == chunk_count(len, c) ==> 0 < len - i * c <= c,
        i + 1 < chunk_count(len, c) ==> c < len - i * c,
{
    let n = chunk_count(len, c);
    assert(n * c >= len && (n - 1) * c < len) by (nonlinear_arith)
        requires
            n == (len + c - 1) / c,
            0 <= len,
            1 <= c,
    ;
    if i < n {
        assert(i * c <= (n - 1) * c) by (nonlinear_arith)
            requires
                i <= n - 1,
                1 <= c,
        ;
    } else {
        assert(i * c >= n * c) by (nonlinear_arith)
            requires
                i >= n,
                1 <= c,
        ;
    }
    if i + 1 == n {
        assert((i + 1) * c == i * c + c) by (nonlinear_arith);
    }
    if i + 1 < n {
        assert((i + 1) * c <= (n - 1) * c) by (nonlinear_arith)
            requires
                i + 1 <= n - 1,
                1 <= c,
        ;
        assert((i + 1) * c == i * c + c) by (nonlinear_arith);
    }
}

/// A mode names the number of its bits, alone or behind a `Q`; there is one of 2, 3, 4, 6 and 8
/// bits, and none of another number.
pub proof fn modes_name_their_bits(n: nat)
    ensures
        mode_bits(decimal(n)) == mode_bits(seq!['Q'] + decimal(n)),
        n == 2 || n == 3 || n == 4 || n == 6 || n == 8 ==> mode_bits(decimal(n)) == Some(n as i64),
        n != 2 && n != 3 && n != 4 && n != 6 && n != 8 ==> mode_bits(decimal(n)) is None,
{
    reveal_strlit("FP16");
    reveal_strlit("F16");
    reveal_strlit("");
    reveal_strlit("Q8");
    reveal_strlit("8");
    reveal_strlit("Q6");
    reveal_strlit("6");
    reveal_strlit("Q4");
    reveal_strlit("4");
    reveal_strlit("Q3");
    reveal_strlit("3");
    reveal_strlit("Q2");
    reveal_strlit("2");
    lemma_decimal_digits(n);
    let m = decimal(n);
    let q = seq!['Q'] + m;
    assert('0' <= m[0] <= '9');
    assert(q[0] == 'Q' && q[1] == m[0] && q.len() == m.len() + 1);
    assert(n >= 10 ==> m.len() > 1) by {
        if n >= 10 {
            lemma_decimal_digits(n / 10);
        }
    }
    if n < 10 {
        assert(m.len() == 1 && m[0] == digit(n));
        if n == 8 {
            assert(m =~= "8"@ && q =~= "Q8"@);
        } else if n == 6 {
            assert(m =~= "6"@ && q =~= "Q6"@);
        } else if n == 4 {
            assert(m =~= "4"@ && q =~= "Q4"@);
        } else if n == 3 {
            assert(m =~= "3"@ && q =~= "Q3"@);
        } else if n == 2 {
            assert(m =~= "2"@ && q =~= "Q2"@);
        }
    }
}

/// What a round emits are its tokens up to the first that ends the text, no more than are left.
pub proof fn rounds_emit_up_to_the_first_end(tokens: Seq<i64>, left: nat, eos: Seq<i64>, n: int)
    requires
        0 <= n <= tokens.len(),
        n <= left,
        forall|i: int| 0 <= i < n ==> !eos.contains(#[trigger] tokens[i]),
        n < tokens.len() && n < left ==> eos.contains(tokens[n]),
    ensures
        cut(tokens, left, eos) == tokens.take(n),
{
    lemma_cut(tokens, left, eos);
    let k = cut(tokens, left, eos).len() as int;
    if k < n {
        assert(!eos.contains(tokens[k]));
    } else if n < k {
        assert(!eos.contains(tokens[n]));
    }
}

} // verus!
