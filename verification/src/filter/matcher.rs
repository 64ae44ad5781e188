//! Matching text against a grammar as it is generated.
use vstd::prelude::*;
use vstd::utf8::{decode_utf8, valid_utf8};
use crate::filter::acceptor::ByteAcceptor;
use crate::filter::automaton::{
    advance, advance_stacks, at_rest, calls, closed_under, frames, grounded, live_stack, live_stacks, rows,
    sound_rule, stacks_of, starts, step, step_char, Elem, Frame, Pos,
};
use crate::filter::gbnf::Grammar;
use crate::filter::utf8::{partial_scalar, read_scalar, scalar_of, Utf8Read};
use crate::text::chars_of;
use std::sync::Arc;

verus! {

/// The state in which matching starts: every alternate of the root, settled.
pub open spec fn initial(rs: Seq<Seq<Elem>>, root: int) -> Seq<Seq<Frame>> {
    advance(rs, calls(seq![], root, starts(rs[root])))
}

/// Whether some branch of a state is fully parsed.
pub open spec fn some_done(stacks: Seq<Seq<Frame>>) -> bool {
    exists|i: int| 0 <= i < stacks.len() && (#[trigger] stacks[i]).len() == 0
}

/// Whether there are branches and all of them are fully parsed.
pub open spec fn all_done(stacks: Seq<Seq<Frame>>) -> bool {
    stacks.len() > 0 && forall|i: int| 0 <= i < stacks.len() ==> (#[trigger] stacks[i]).len() == 0
}

/// The state and whether it is dead, after `text`.
pub open spec fn feed_all(rs: Seq<Seq<Elem>>, stacks: Seq<Seq<Frame>>, text: Seq<char>) -> (
    Seq<Seq<Frame>>,
    bool,
)
    decreases text.len(),
{
    if text.len() == 0 {
        (stacks, false)
    } else if all_done(stacks) || stacks.len() == 0 {
        (stacks, true)
    } else {
        let next = step(rs, stacks, text[0] as u32);
        if next.len() == 0 {
            (next, true)
        } else {
            feed_all(rs, next, text.drop_first())
        }
    }
}

/// One round of the state hash.
pub open spec fn mix(h: u64, v: u64) -> u64 {
    (h ^ v).wrapping_mul(1099511628211)
}

/// The hash of one stack on top of `h`.
pub open spec fn mix_stack(h: u64, st: Seq<Frame>) -> u64
    decreases st.len(),
{
    if st.len() == 0 {
        h
    } else {
        mix(mix(mix_stack(h, st.drop_last()), st.last().0 as u64), st.last().1 as u64)
    }
}

/// The hash of a state.
pub open spec fn state_hash(stacks: Seq<Seq<Frame>>) -> u64
    decreases stacks.len(),
{
    if stacks.len() == 0 {
        1469598103934665603
    } else {
        mix(mix_stack(state_hash(stacks.drop_last()), stacks.last()), 0xABCD)
    }
}

/// Whether a state belongs to a grammar on which the machine comes to rest.
pub open spec fn state_ok(rs: Seq<Seq<Elem>>, root: int, stacks: Seq<Seq<Frame>>) -> bool {
    exists|live: Set<int>| #[trigger] state_in(rs, root, live, stacks)
}

/// Whether a state stands on the rules of `live`.
pub open spec fn state_in(
    rs: Seq<Seq<Elem>>,
    root: int,
    live: Set<int>,
    stacks: Seq<Seq<Frame>>,
) -> bool {
    &&& grounded(rs, live)
    &&& live.contains(root)
    &&& live_stacks(rs, live, stacks)
    &&& forall|j: int| 0 <= j < stacks.len() ==> at_rest(rs, #[trigger] stacks[j])
}

/// What `String::from_utf8_lossy` makes of bytes.
pub uninterp spec fn utf8_lossy(bytes: Seq<u8>) -> Seq<char>;

/// `String::from_utf8_lossy`: a text that depends on the bytes alone, and that is their
/// decoding where they are valid UTF-8.
#[verifier::external_body]
fn lossy_text(bytes: &[u8]) -> (r: String)
    ensures
        r@ == utf8_lossy(bytes@),
        valid_utf8(bytes@) ==> r@ == decode_utf8(bytes@),
{
    String::from_utf8_lossy(bytes).into_owned()
}

fn copy_stacks(v: &Vec<Vec<Pos>>) -> (r: Vec<Vec<Pos>>)
    ensures
        stacks_of(r@) == stacks_of(v@),
{
    let mut r: Vec<Vec<Pos>> = Vec::new();
    let mut i: usize = 0;
    while i < v.len()
        invariant
            i <= v.len(),
            r@.len() == i,
            forall|j: int| 0 <= j < i ==> (#[trigger] r[j])@ == v[j]@,
        decreases v.len() - i,
    {
        let mut st: Vec<Pos> = Vec::new();
        let mut k: usize = 0;
        while k < v[i].len()
            invariant
                i < v.len(),
                k <= v[i as int].len(),
                st@ == v[i as int]@.take(k as int),
            decreases v[i as int].len() - k,
        {
            st.push(v[i][k]);
            k = k + 1;
            assert(st@ =~= v[i as int]@.take(k as int));
        }
        assert(st@ =~= v[i as int]@);
        r.push(st);
        i = i + 1;
    }
    assert(stacks_of(r@) =~= stacks_of(v@));
    r
}

/// The live branches of a match in progress.
#[derive(Clone)]
pub struct Matcher {
    grammar: Arc<Grammar>,
    stacks: Vec<Vec<Pos>>,
    dead: bool,
}

impl Matcher {
    /// The grammar's rules.
    pub closed spec fn rules(&self) -> Seq<Seq<Elem>> {
        self.grammar.model()
    }

    /// The grammar's root.
    pub closed spec fn root(&self) -> int {
        self.grammar.root as int
    }

    /// The live branches; an empty stack is a fully parsed one.
    pub closed spec fn stacks(&self) -> Seq<Seq<Frame>> {
        stacks_of(self.stacks@)
    }

    /// Whether the grammar was violated.
    pub closed spec fn dead(&self) -> bool {
        self.dead
    }

    /// The grammar is one that the machine can run on, and the branches belong to it.
    pub open spec fn inv(&self) -> bool {
        state_ok(self.rules(), self.root(), self.stacks())
    }

    /// Whether no further input is possible and the parse is complete.
    pub open spec fn complete(&self) -> bool {
        !self.dead() && all_done(self.stacks())
    }

    /// A matcher at the start of `grammar`.
    pub fn new(grammar: Arc<Grammar>) -> (r: Matcher)
        requires
            grammar.sound(),
        ensures
            r.inv(),
            r.rules() == grammar.model(),
            r.root() == grammar.root,
            r.stacks() == initial(r.rules(), r.root()),
            !r.dead(),
    {
        let mut m = Matcher { grammar, stacks: Vec::new(), dead: false };
        proof {
            let rs = m.rules();
            let live = choose|live: Set<int>| #[trigger] closed_under(rs, live) && live.contains(m.root());
            assert(state_in(rs, m.root(), live, m.stacks()));
        }
        m.reset();
        m
    }

    /// Return to the start.
    pub fn reset(&mut self)
        requires
            old(self).inv(),
        ensures
            final(self).inv(),
            final(self).rules() == old(self).rules(),
            final(self).root() == old(self).root(),
            final(self).stacks() == initial(old(self).rules(), old(self).root()),
            !final(self).dead(),
    {
        let ghost rs = self.rules();
        let ghost root = self.root();
        let ghost live = choose|live: Set<int>| #[trigger] state_in(rs, root, live, self.stacks());
        proof {
            assert(sound_rule(rs, root));
        }
        let mut init: Vec<Vec<Pos>> = Vec::new();
        let sts = crate::filter::automaton::alt_starts(&self.grammar.rules[self.grammar.root]);
        let ghost want = starts(rs[root]);
        let mut k: usize = 0;
        while k < sts.len()
            invariant
                k <= sts.len(),
                root == self.grammar.root,
                sts@.map_values(|x: usize| x as int) == want,
                stacks_of(init@) == calls(seq![], root, want).take(k as int),
            decreases sts.len() - k,
        {
            let mut st: Vec<Pos> = Vec::new();
            st.push((self.grammar.root, sts[k]));
            let ghost init0 = stacks_of(init@);
            proof {
                assert(want[k as int] == sts[k as int] as int);
                assert(frames(st@) =~= Seq::<Frame>::empty().push((root, want[k as int])));
            }
            init.push(st);
            assert(stacks_of(init@) =~= init0.push(frames(st@)));
            k = k + 1;
            assert(stacks_of(init@) =~= calls(seq![], root, want).take(k as int));
        }
        proof {
            assert(stacks_of(init@) =~= calls(seq![], root, want));
            crate::filter::automaton::lemma_starts_inside(rs[root]);
            assert forall|j: int| 0 <= j < stacks_of(init@).len() implies live_stack(
                rs,
                live,
                #[trigger] stacks_of(init@)[j],
            ) by {
                let st = stacks_of(init@)[j];
                assert(st =~= seq![(root, want[j])]);
            }
        }
        self.dead = false;
        let next = advance_stacks(&self.grammar.rules, init, Ghost(live));
        self.stacks = next;
        assert(state_in(rs, root, live, self.stacks()));
    }

    /// Every live branch is fully parsed: no further input is possible.
    pub fn is_complete(&self) -> (r: bool)
        ensures
            r == self.complete(),
    {
        if self.dead || self.stacks.len() == 0 {
            return false;
        }
        let mut i: usize = 0;
        while i < self.stacks.len()
            invariant
                i <= self.stacks.len(),
                forall|j: int| 0 <= j < i ==> (#[trigger] self.stacks()[j]).len() == 0,
            decreases self.stacks.len() - i,
        {
            if self.stacks[i].len() != 0 {
                assert(self.stacks()[i as int].len() != 0);
                return false;
            }
            i = i + 1;
        }
        true
    }

    /// The grammar was violated.
    pub fn is_dead(&self) -> (r: bool)
        ensures
            r == self.dead(),
    {
        self.dead
    }

    /// Stopping here would be valid.
    pub fn can_end(&self) -> (r: bool)
        ensures
            r == (!self.dead() && some_done(self.stacks())),
    {
        !self.dead && any_done(&self.stacks)
    }

    /// Whether no branch is left.
    pub fn is_stuck(&self) -> (r: bool)
        ensures
            r == (self.stacks().len() == 0),
    {
        self.stacks.len() == 0
    }

    /// Feed a text. A dead or complete matcher stays as it is.
    pub fn accept_text(&mut self, text: &str)
        requires
            old(self).inv(),
        ensures
            final(self).inv(),
            final(self).rules() == old(self).rules(),
            final(self).root() == old(self).root(),
            old(self).dead() || old(self).complete() ==> final(self).stacks() == old(self).stacks()
                && final(self).dead() == old(self).dead(),
            !old(self).dead() && !old(self).complete() ==> (final(self).stacks(), final(self).dead())
                == feed_all(old(self).rules(), old(self).stacks(), text@),
    {
        if self.dead || self.is_complete() {
            return;
        }
        let ghost rs = self.rules();
        let ghost root = self.root();
        let ghost live = choose|live: Set<int>| #[trigger] state_in(rs, root, live, self.stacks());
        let ghost goal = feed_all(rs, self.stacks(), text@);
        let chars = chars_of(text);
        let mut i: usize = 0;
        assert(chars@.skip(0) =~= chars@);
        while i < chars.len()
            invariant
                i <= chars.len(),
                rs == self.rules(),
                root == self.root(),
                rs == old(self).rules(),
                root == old(self).root(),
                !old(self).dead(),
                !old(self).complete(),
                goal == feed_all(old(self).rules(), old(self).stacks(), text@),
                rs == rows(self.grammar.rules@),
                state_in(rs, root, live, self.stacks()),
                !self.dead,
                goal == feed_all(rs, self.stacks(), chars@.skip(i as int)),
            decreases chars.len() - i,
        {
            let mut any_live: bool = false;
            let mut k: usize = 0;
            while k < self.stacks.len()
                invariant
                    k <= self.stacks.len(),
                    any_live == exists|j: int| 0 <= j < k && (#[trigger] self.stacks()[j]).len() > 0,
                decreases self.stacks.len() - k,
            {
                if self.stacks[k].len() > 0 {
                    assert(self.stacks()[k as int].len() > 0);
                    any_live = true;
                }
                k = k + 1;
            }
            if !any_live {
                self.dead = true;
                assert(state_in(rs, root, live, self.stacks()));
                return;
            }
            let next = step_char(&self.grammar.rules, &self.stacks, chars[i] as u32, Ghost(live));
            proof {
                assert(chars@.skip(i as int)[0] == chars@[i as int]);
                assert(chars@.skip(i as int).drop_first() =~= chars@.skip(i + 1));
            }
            self.stacks = next;
            assert(state_in(rs, root, live, self.stacks()));
            if self.stacks.len() == 0 {
                self.dead = true;
                assert(state_in(rs, root, live, self.stacks()));
                return;
            }
            i = i + 1;
        }
    }

    /// Feed the raw bytes of one emitted token piece.
    pub fn accept_bytes(&mut self, bytes: &[u8])
        requires
            old(self).inv(),
        ensures
            final(self).inv(),
            final(self).rules() == old(self).rules(),
            final(self).root() == old(self).root(),
            old(self).dead() || old(self).complete() || bytes@.len() == 0 ==> final(self).stacks()
                == old(self).stacks() && final(self).dead() == old(self).dead(),
            !old(self).dead() && !old(self).complete() && bytes@.len() > 0 ==> (
                final(self).stacks(),
                final(self).dead(),
            ) == feed_all(old(self).rules(), old(self).stacks(), utf8_lossy(bytes@)),
            valid_utf8(bytes@) ==> utf8_lossy(bytes@) == decode_utf8(bytes@),
    {
        let text = lossy_text(bytes);
        if bytes.len() == 0 || self.dead || self.is_complete() {
            return;
        }
        self.accept_text(text.as_str());
    }

    /// A hash of the live branches, for caching what depends on them.
    pub fn signature(&self) -> (r: u64)
        ensures
            r == state_hash(self.stacks()),
    {
        let mut h: u64 = 1469598103934665603;
        let ghost all = self.stacks();
        let mut i: usize = 0;
        assert(all.take(0) =~= seq![]);
        while i < self.stacks.len()
            invariant
                i <= self.stacks.len(),
                all == stacks_of(self.stacks@),
                h == state_hash(all.take(i as int)),
            decreases self.stacks.len() - i,
        {
            let ghost h0 = h;
            let ghost st = all[i as int];
            let mut k: usize = 0;
            assert(st.take(0) =~= seq![]);
            while k < self.stacks[i].len()
                invariant
                    i < self.stacks.len(),
                    k <= self.stacks[i as int].len(),
                    st == frames(self.stacks[i as int]@),
                    h == mix_stack(h0, st.take(k as int)),
                decreases self.stacks[i as int].len() - k,
            {
                let (r, at) = self.stacks[i][k];
                h = h ^ (r as u64);
                h = h.wrapping_mul(1099511628211);
                h = h ^ (at as u64);
                h = h.wrapping_mul(1099511628211);
                assert(st.take(k + 1).drop_last() =~= st.take(k as int));
                k = k + 1;
            }
            assert(st.take(k as int) =~= st);
            h = h ^ 0xABCD;
            h = h.wrapping_mul(1099511628211);
            assert(all.take(i + 1).drop_last() =~= all.take(i as int));
            i = i + 1;
        }
        assert(all.take(i as int) =~= all);
        h
    }

    /// The state as a byte acceptor.
    pub fn acceptor(&self) -> (r: GrammarAcceptor)
        requires
            self.inv(),
        ensures
            r.inv(),
            r.rules() == self.rules(),
            r.stacks() == self.stacks(),
            r.pending() == Seq::<u8>::empty(),
    {
        let r = GrammarAcceptor {
            grammar: self.grammar.clone(),
            stacks: copy_stacks(&self.stacks),
            pending: Vec::new(),
        };
        proof {
            let live = choose|live: Set<int>| #[trigger] state_in(self.rules(), self.root(), live, self.stacks());
            assert(state_in(r.rules(), r.grammar.root as int, live, r.stacks()));
        }
        r
    }
}

fn any_done(v: &Vec<Vec<Pos>>) -> (r: bool)
    ensures
        r == some_done(stacks_of(v@)),
{
    let mut i: usize = 0;
    while i < v.len()
        invariant
            i <= v.len(),
            forall|j: int| 0 <= j < i ==> (#[trigger] stacks_of(v@)[j]).len() != 0,
        decreases v.len() - i,
    {
        if v[i].len() == 0 {
            assert(stacks_of(v@)[i as int].len() == 0);
            return true;
        }
        i = i + 1;
    }
    false
}

/// One byte of input to a state with `pending` bytes of an unfinished codepoint.
pub open spec fn byte_step(
    rs: Seq<Seq<Elem>>,
    stacks: Seq<Seq<Frame>>,
    pending: Seq<u8>,
    b: u8,
) -> Option<(Seq<Seq<Frame>>, Seq<u8>)> {
    let buf = pending.push(b);
    match scalar_of(buf) {
        Some(c) => {
            let next = step(rs, stacks, c);
            if next.len() == 0 {
                None
            } else {
                Some((next, seq![]))
            }
        },
        None => if partial_scalar(buf) {
            Some((stacks, buf))
        } else {
            None
        },
    }
}

/// Bytes of input one after another.
pub open spec fn byte_run(
    rs: Seq<Seq<Elem>>,
    stacks: Seq<Seq<Frame>>,
    pending: Seq<u8>,
    w: Seq<u8>,
) -> Option<(Seq<Seq<Frame>>, Seq<u8>)>
    decreases w.len(),
{
    if w.len() == 0 {
        Some((stacks, pending))
    } else {
        match byte_step(rs, stacks, pending, w[0]) {
            None => None,
            Some((s, p)) => byte_run(rs, s, p, w.drop_first()),
        }
    }
}

/// A matcher state that is fed byte by byte; the bytes of an unfinished codepoint wait
/// until it is complete.
#[derive(Clone)]
pub struct GrammarAcceptor {
    grammar: Arc<Grammar>,
    stacks: Vec<Vec<Pos>>,
    pending: Vec<u8>,
}

impl GrammarAcceptor {
    /// The grammar's rules.
    pub closed spec fn rules(&self) -> Seq<Seq<Elem>> {
        self.grammar.model()
    }

    /// The live branches.
    pub closed spec fn stacks(&self) -> Seq<Seq<Frame>> {
        stacks_of(self.stacks@)
    }

    /// The bytes of the unfinished codepoint.
    pub closed spec fn pending(&self) -> Seq<u8> {
        self.pending@
    }
}

impl ByteAcceptor for GrammarAcceptor {
    closed spec fn inv(&self) -> bool {
        &&& state_ok(self.rules(), self.grammar.root as int, self.stacks())
        &&& self.pending().len() > 0 ==> partial_scalar(self.pending())
    }

    open spec fn accepts(&self, w: Seq<u8>) -> bool {
        byte_run(self.rules(), self.stacks(), self.pending(), w) is Some
    }

    open spec fn ends(&self) -> bool {
        self.pending().len() == 0 && some_done(self.stacks())
    }

    fn step(&self, byte: u8) -> (r: Option<Self>)
        ensures
            match r {
                Some(n) => byte_step(self.rules(), self.stacks(), self.pending(), byte) == Some(
                    (n.stacks(), n.pending()),
                ) && n.rules() == self.rules(),
                None => byte_step(self.rules(), self.stacks(), self.pending(), byte) is None,
            },
    {
        let ghost rs = self.rules();
        let ghost root = self.grammar.root as int;
        let ghost live = choose|live: Set<int>| #[trigger] state_in(rs, root, live, self.stacks());
        let mut buf: Vec<u8> = Vec::new();
        let mut i: usize = 0;
        while i < self.pending.len()
            invariant
                i <= self.pending.len(),
                buf@ == self.pending@.take(i as int),
            decreases self.pending.len() - i,
        {
            buf.push(self.pending[i]);
            i = i + 1;
            assert(buf@ =~= self.pending@.take(i as int));
        }
        assert(buf@ =~= self.pending@);
        buf.push(byte);
        proof {
            assert forall|w: Seq<u8>| #[trigger] self.accepts(seq![byte] + w) == match byte_step(
                rs,
                self.stacks(),
                self.pending(),
                byte,
            ) {
                None => false,
                Some((s, p)) => byte_run(rs, s, p, w) is Some,
            } by {
                assert((seq![byte] + w)[0] == byte);
                assert((seq![byte] + w).drop_first() =~= w);
            }
            assert(seq![byte] + Seq::<u8>::empty() =~= seq![byte]);
            assert(self.accepts(seq![byte] + Seq::<u8>::empty()) == self.accepts(seq![byte]));
        }
        match read_scalar(&buf) {
            Utf8Read::Code(c) => {
                let next = step_char(&self.grammar.rules, &self.stacks, c, Ghost(live));
                if next.len() == 0 {
                    assert(stacks_of(next@).len() == 0);
                    return None;
                }
                let n = GrammarAcceptor { grammar: self.grammar.clone(), stacks: next, pending: Vec::new() };
                assert(state_in(n.rules(), n.grammar.root as int, live, n.stacks()));
                Some(n)
            },
            Utf8Read::Partial => {
                let n = GrammarAcceptor {
                    grammar: self.grammar.clone(),
                    stacks: copy_stacks(&self.stacks),
                    pending: buf,
                };
                assert(state_in(n.rules(), n.grammar.root as int, live, n.stacks()));
                Some(n)
            },
            Utf8Read::Bad => None,
        }
    }

    fn can_end(&self) -> (r: bool) {
        self.pending.len() == 0 && any_done(&self.stacks)
    }
}

} // verus!
