//! What the matcher accepts: the language of its grammar.
use vstd::prelude::*;
use vstd::utf8::{encode_scalar, encode_utf8};
use crate::filter::automaton::{
    advance, at_rest, bump, calls, closed_under, grounded, lemma_moves_live, lemma_shift_live, lemma_starts_inside,
    lemma_trace_all_add, lemma_trace_step, live_frame,
    live_stack, live_stacks, moves, past, set_end, set_has, settle, shift, sound_from, sound_rule, starts, step, takes, trace,
    trace_all, Elem, Frame,
};
use crate::filter::matcher::{all_done, byte_run, feed_all, initial, some_done, state_in};
use crate::filter::utf8::{begins, lemma_partial_not_whole, lemma_scalar_of};

verus! {

/// The outcome of feeding bytes that corresponds to an outcome of feeding text.
pub open spec fn as_byte_run(r: (Seq<Seq<Frame>>, bool)) -> Option<(Seq<Seq<Frame>>, Seq<u8>)> {
    if r.1 {
        None
    } else {
        Some((r.0, seq![]))
    }
}

proof fn lemma_run_scalar(
    rs: Seq<Seq<Elem>>,
    stacks: Seq<Seq<Frame>>,
    c: char,
    k: int,
    rest: Seq<u8>,
)
    requires
        0 <= k < encode_scalar(c as u32).len(),
    ensures
        byte_run(rs, stacks, encode_scalar(c as u32).take(k), encode_scalar(c as u32).skip(k) + rest)
            == if step(rs, stacks, c as u32).len() == 0 {
            None
        } else {
            byte_run(rs, step(rs, stacks, c as u32), seq![], rest)
        },
    decreases encode_scalar(c as u32).len() - k,
{
    broadcast use vstd::utf8::char_is_scalar;

    let v = c as u32;
    let e = encode_scalar(v);
    let w = e.skip(k) + rest;
    let buf = e.take(k).push(e[k]);
    assert(w[0] == e[k]);
    assert(buf =~= e.take(k + 1));
    assert(w.drop_first() =~= e.skip(k + 1) + rest);
    if k + 1 == e.len() {
        assert(buf =~= e);
        lemma_scalar_of(v);
        assert(e.skip(k + 1) + rest =~= rest);
    } else {
        assert(begins(buf, v));
        lemma_partial_not_whole(buf);
        lemma_run_scalar(rs, stacks, c, k + 1, rest);
    }
}

proof fn lemma_step_done(rs: Seq<Seq<Elem>>, stacks: Seq<Seq<Frame>>, c: u32)
    requires
        all_done(stacks) || stacks.len() == 0,
    ensures
        step(rs, stacks, c).len() == 0,
{
    lemma_shift_done(rs, stacks, c);
    assert(trace_all(rs, shift(rs, stacks, c), rs.len()) =~= seq![]);
}

proof fn lemma_shift_done(rs: Seq<Seq<Elem>>, stacks: Seq<Seq<Frame>>, c: u32)
    requires
        forall|i: int| 0 <= i < stacks.len() ==> (#[trigger] stacks[i]).len() == 0,
    ensures
        shift(rs, stacks, c) == Seq::<Seq<Frame>>::empty(),
    decreases stacks.len(),
{
    if stacks.len() > 0 {
        assert(stacks[stacks.len() - 1].len() == 0);
        assert forall|i: int| 0 <= i < stacks.drop_last().len() implies (#[trigger] stacks.drop_last()[i]).len()
            == 0 by {
            assert(stacks[i].len() == 0);
        }
        lemma_shift_done(rs, stacks.drop_last(), c);
    }
}

/// Feeding a text byte by byte comes to the same as feeding it whole: the bytes are all
/// accepted exactly when the text does not violate the grammar, and then the branches
/// are the same.
pub proof fn bytes_agree_with_text(rs: Seq<Seq<Elem>>, stacks: Seq<Seq<Frame>>, text: Seq<char>)
    ensures
        byte_run(rs, stacks, seq![], encode_utf8(text)) == as_byte_run(feed_all(rs, stacks, text)),
    decreases text.len(),
{
    broadcast use vstd::utf8::char_is_scalar;

    if text.len() > 0 {
        let c = text[0];
        let e = encode_scalar(c as u32);
        let rest = encode_utf8(text.drop_first());
        assert(e.take(0) =~= seq![]);
        assert(e.skip(0) =~= e);
        lemma_run_scalar(rs, stacks, c, 0, rest);
        if all_done(stacks) || stacks.len() == 0 {
            lemma_step_done(rs, stacks, c as u32);
        } else {
            bytes_agree_with_text(rs, step(rs, stacks, c as u32), text.drop_first());
        }
    }
}

/// Whether `text` can be read from place `(r, i)` to the end of the rule, with a
/// derivation of height less than `n`.
pub open spec fn derives(rs: Seq<Seq<Elem>>, r: int, i: int, text: Seq<u32>, n: nat) -> bool
    decreases n,
{
    n > 0 && 0 <= r < rs.len() && 0 <= i < rs[r].len() && match rs[r][i] {
        Elem::End => text.len() == 0,
        Elem::Alt => text.len() == 0,
        Elem::RuleRef(s) => s < rs.len() && exists|k: int, a: int|
            #![trigger text.take(k), starts(rs[s as int])[a]]
            0 <= k <= text.len() && 0 <= a < starts(rs[s as int]).len() && derives(
                rs,
                s as int,
                starts(rs[s as int])[a],
                text.take(k),
                (n - 1) as nat,
            ) && derives(rs, r, i + 1, text.skip(k), (n - 1) as nat),
        Elem::CharRngUpper(_) => derives(rs, r, i + 1, text, (n - 1) as nat),
        Elem::CharAlt(_) => derives(rs, r, i + 1, text, (n - 1) as nat),
        _ => text.len() > 0 && set_has(rs[r], i, text[0]) && derives(
            rs,
            r,
            set_end(rs[r], i),
            text.drop_first(),
            (n - 1) as nat,
        ),
    }
}

/// Whether `text` is in the language of the grammar: some alternate of the root reads it
/// to the end.
pub open spec fn in_language(rs: Seq<Seq<Elem>>, root: int, text: Seq<u32>) -> bool {
    exists|a: int, n: nat|
        0 <= a < starts(rs[root]).len() && #[trigger] derives(rs, root, starts(rs[root])[a], text, n)
}

/// Whether a stack can read `text` and be finished.
pub open spec fn spells(rs: Seq<Seq<Elem>>, st: Seq<Frame>, text: Seq<u32>, n: nat) -> bool
    decreases st.len(),
{
    if st.len() == 0 {
        text.len() == 0
    } else {
        exists|k: int|
            #![trigger text.take(k)]
            0 <= k <= text.len() && derives(
                rs,
                st.last().0,
                st.last().1,
                text.take(k),
                n,
            ) && spells(rs, bump(st.drop_last()), text.skip(k), n)
    }
}

pub open spec fn can_spell(rs: Seq<Seq<Elem>>, st: Seq<Frame>, text: Seq<u32>) -> bool {
    exists|n: nat| #[trigger] spells(rs, st, text, n)
}

pub open spec fn some_spells(rs: Seq<Seq<Elem>>, sts: Seq<Seq<Frame>>, text: Seq<u32>) -> bool {
    exists|j: int| 0 <= j < sts.len() && can_spell(rs, #[trigger] sts[j], text)
}

pub proof fn lemma_derives_mono(rs: Seq<Seq<Elem>>, r: int, i: int, text: Seq<u32>, n: nat, m: nat)
    requires
        derives(rs, r, i, text, n),
        n <= m,
    ensures
        derives(rs, r, i, text, m),
    decreases n,
{
    let n1 = (n - 1) as nat;
    let m1 = (m - 1) as nat;
    match rs[r][i] {
        Elem::End => {},
        Elem::Alt => {},
        Elem::RuleRef(s) => {
            let sts = starts(rs[s as int]);
            let (k, a) = choose|k: int, a: int|
                #![trigger text.take(k), sts[a]]
                0 <= k <= text.len() && 0 <= a < sts.len() && derives(
                    rs,
                    s as int,
                    sts[a],
                    text.take(k),
                    n1,
                ) && derives(rs, r, i + 1, text.skip(k), n1);
            lemma_derives_mono(rs, s as int, sts[a], text.take(k), n1, m1);
            lemma_derives_mono(rs, r, i + 1, text.skip(k), n1, m1);
        },
        Elem::CharRngUpper(_) | Elem::CharAlt(_) => {
            lemma_derives_mono(rs, r, i + 1, text, n1, m1);
        },
        _ => {
            lemma_derives_mono(rs, r, set_end(rs[r], i), text.drop_first(), n1, m1);
        },
    }
}

proof fn lemma_spells_mono(rs: Seq<Seq<Elem>>, st: Seq<Frame>, text: Seq<u32>, n: nat, m: nat)
    requires
        spells(rs, st, text, n),
        n <= m,
    ensures
        spells(rs, st, text, m),
    decreases st.len(),
{
    if st.len() > 0 {
        let k = choose|k: int|
            #![trigger text.take(k)]
            0 <= k <= text.len() && derives(
                rs,
                st.last().0,
                st.last().1,
                text.take(k),
                n,
            ) && spells(rs, bump(st.drop_last()), text.skip(k), n);
        lemma_derives_mono(rs, st.last().0, st.last().1, text.take(k), n, m);
        lemma_spells_mono(rs, bump(st.drop_last()), text.skip(k), n, m);
    }
}

/// What it takes for a stack with `(r, i)` on top of `rest` to read `text`.
proof fn lemma_spells_top(
    rs: Seq<Seq<Elem>>,
    rest: Seq<Frame>,
    f: Frame,
    text: Seq<u32>,
    k: int,
    n: nat,
)
    requires
        0 <= k <= text.len(),
        derives(rs, f.0, f.1, text.take(k), n),
        spells(rs, bump(rest), text.skip(k), n),
    ensures
        spells(rs, rest.push(f), text, n),
{
    assert(rest.push(f).drop_last() =~= rest);
}

/// A stack that is not at rest reads what its moves read.
proof fn lemma_moves_spell(rs: Seq<Seq<Elem>>, live: Set<int>, st: Seq<Frame>, text: Seq<u32>)
    requires
        grounded(rs, live),
        live_stack(rs, live, st),
        st.len() > 0,
        !at_rest(rs, st),
    ensures
        can_spell(rs, st, text) <==> some_spells(rs, moves(rs, st), text),
{
    let (r, i) = st.last();
    let rest = st.drop_last();
    assert(rest.push((r, i)) =~= st);
    assert(live_frame(rs, live, st[st.len() - 1]));
    assert(sound_rule(rs, r));
    let ms = moves(rs, st);
    if can_spell(rs, st, text) {
        let n = choose|n: nat| #[trigger] spells(rs, st, text, n);
        let k = choose|k: int|
            #![trigger text.take(k)]
            0 <= k <= text.len() && derives(rs, r, i, text.take(k), n) && spells(
                rs,
                bump(rest),
                text.skip(k),
                n,
            );
        let n1 = (n - 1) as nat;
        match rs[r][i] {
            Elem::End => {
                assert(text.skip(k) =~= text);
                assert(can_spell(rs, ms[0], text));
            },
            Elem::Alt => {
                let m = rs[r].len() - 1;
                assert(rs[r][m] == Elem::End);
                assert(derives(rs, r, m, text.take(k), n));
                lemma_spells_top(rs, rest, (r, m), text, k, n);
                assert(can_spell(rs, ms[0], text));
            },
            Elem::RuleRef(s) => {
                let sts = starts(rs[s as int]);
                let t = text.take(k);
                let (k2, a) = choose|k2: int, a: int|
                    #![trigger t.take(k2), sts[a]]
                    0 <= k2 <= t.len() && 0 <= a < sts.len() && derives(
                        rs,
                        s as int,
                        sts[a],
                        t.take(k2),
                        n1,
                    ) && derives(rs, r, i + 1, t.skip(k2), n1);
                let u = text.skip(k2);
                let k3 = k - k2;
                assert(t.take(k2) =~= text.take(k2));
                assert(t.skip(k2) =~= u.take(k3));
                assert(u.skip(k3) =~= text.skip(k));
                lemma_derives_mono(rs, r, i + 1, u.take(k3), n1, n);
                lemma_spells_top(rs, rest, (r, i + 1), u, k3, n);
                assert(bump(st) =~= rest.push((r, i + 1)));
                lemma_derives_mono(rs, s as int, sts[a], text.take(k2), n1, n);
                lemma_spells_top(rs, st, (s as int, sts[a]), text, k2, n);
                assert(ms[a] == st.push((s as int, sts[a])));
                assert(can_spell(rs, ms[a], text));
            },
            _ => {
                lemma_derives_mono(rs, r, i + 1, text.take(k), n1, n);
                lemma_spells_top(rs, rest, (r, i + 1), text, k, n);
                assert(bump(st) =~= rest.push((r, i + 1)));
                assert(can_spell(rs, ms[0], text));
            },
        }
    }
    if some_spells(rs, ms, text) {
        let j = choose|j: int| 0 <= j < ms.len() && can_spell(rs, #[trigger] ms[j], text);
        let n0 = choose|n: nat| #[trigger] spells(rs, ms[j], text, n);
        let n = n0 + 1;
        lemma_spells_mono(rs, ms[j], text, n0, n);
        match rs[r][i] {
            Elem::End => {
                assert(text.skip(0) =~= text);
                assert(derives(rs, r, i, text.take(0), n));
                lemma_spells_top(rs, rest, (r, i), text, 0, n);
            },
            Elem::Alt => {
                let m = rs[r].len() - 1;
                assert(ms[j].drop_last() =~= rest);
                let k = choose|k: int|
                    #![trigger text.take(k)]
                    0 <= k <= text.len() && derives(rs, r, m, text.take(k), n) && spells(
                        rs,
                        bump(rest),
                        text.skip(k),
                        n,
                    );
                assert(derives(rs, r, i, text.take(k), n));
                lemma_spells_top(rs, rest, (r, i), text, k, n);
            },
            Elem::RuleRef(s) => {
                let sts = starts(rs[s as int]);
                assert(ms[j].drop_last() =~= st);
                let k2 = choose|k: int|
                    #![trigger text.take(k)]
                    0 <= k <= text.len() && derives(
                        rs,
                        s as int,
                        sts[j],
                        text.take(k),
                        n,
                    ) && spells(rs, bump(st), text.skip(k), n);
                let u = text.skip(k2);
                assert(bump(st).drop_last() =~= rest);
                let k3 = choose|k: int|
                    #![trigger u.take(k)]
                    0 <= k <= u.len() && derives(rs, r, i + 1, u.take(k), n) && spells(
                        rs,
                        bump(rest),
                        u.skip(k),
                        n,
                    );
                let k = k2 + k3;
                let t = text.take(k);
                assert(t.take(k2) =~= text.take(k2));
                assert(t.skip(k2) =~= u.take(k3));
                assert(u.skip(k3) =~= text.skip(k));
                let big = n + 1;
                assert(derives(rs, s as int, sts[j], t.take(k2), (big - 1) as nat));
                assert(derives(rs, r, i, t, big));
                lemma_spells_mono(rs, bump(rest), text.skip(k), n, big);
                lemma_spells_top(rs, rest, (r, i), text, k, big);
            },
            _ => {
                assert(bump(st).drop_last() =~= rest);
                let k = choose|k: int|
                    #![trigger text.take(k)]
                    0 <= k <= text.len() && derives(rs, r, i + 1, text.take(k), n) && spells(
                        rs,
                        bump(rest),
                        text.skip(k),
                        n,
                    );
                let big = n + 1;
                assert(derives(rs, r, i, text.take(k), big));
                lemma_spells_mono(rs, bump(rest), text.skip(k), n, big);
                lemma_spells_top(rs, rest, (r, i), text, k, big);
            },
        }
    }
}

/// A stack that waits for input reads a text exactly when it takes its first character
/// and then reads the rest.
proof fn lemma_rest_spells(rs: Seq<Seq<Elem>>, st: Seq<Frame>, text: Seq<u32>)
    requires
        st.len() > 0,
        at_rest(rs, st),
        0 <= st.last().0 < rs.len(),
        0 <= st.last().1 < rs[st.last().0].len(),
    ensures
        can_spell(rs, st, text) <==> text.len() > 0 && takes(rs, st, text[0]) && can_spell(
            rs,
            past(rs, st),
            text.drop_first(),
        ),
{
    let (r, i) = st.last();
    let rest = st.drop_last();
    let e = set_end(rs[r], i);
    assert(rest.push((r, i)) =~= st);
    if can_spell(rs, st, text) {
        let n = choose|n: nat| #[trigger] spells(rs, st, text, n);
        let k = choose|k: int|
            #![trigger text.take(k)]
            0 <= k <= text.len() && derives(rs, r, i, text.take(k), n) && spells(
                rs,
                bump(rest),
                text.skip(k),
                n,
            );
        let t = text.take(k);
        assert(t[0] == text[0]);
        assert(t.drop_first() =~= text.drop_first().take(k - 1));
        assert(text.drop_first().skip(k - 1) =~= text.skip(k));
        lemma_derives_mono(rs, r, e, t.drop_first(), (n - 1) as nat, n);
        lemma_spells_top(rs, rest, (r, e), text.drop_first(), k - 1, n);
    }
    if text.len() > 0 && takes(rs, st, text[0]) && can_spell(rs, past(rs, st), text.drop_first()) {
        let u = text.drop_first();
        let n = choose|n: nat| #[trigger] spells(rs, past(rs, st), u, n);
        assert(past(rs, st).drop_last() =~= rest);
        let k = choose|k: int|
            #![trigger u.take(k)]
            0 <= k <= u.len() && derives(rs, r, e, u.take(k), n) && spells(
                rs,
                bump(rest),
                u.skip(k),
                n,
            );
        let t = text.take(k + 1);
        let big = n + 1;
        assert(t.drop_first() =~= u.take(k));
        assert(text.skip(k + 1) =~= u.skip(k));
        assert(derives(rs, r, i, t, big));
        lemma_spells_mono(rs, bump(rest), u.skip(k), n, big);
        lemma_spells_top(rs, rest, (r, i), text, k + 1, big);
    }
}

/// A stack is in the settled state exactly when it lies on the trace.
proof fn lemma_settle(tr: Seq<Option<Seq<Frame>>>, st: Seq<Frame>)
    ensures
        settle(tr).contains(st) <==> tr.contains(Some(st)),
    decreases tr.len(),
{
    if tr.len() > 0 {
        let p = tr.drop_last();
        lemma_settle(p, st);
        if p.contains(Some(st)) {
            let j = choose|j: int| 0 <= j < p.len() && p[j] == Some(st);
            assert(tr[j] == Some(st));
        }
        assert(tr[tr.len() - 1] == tr.last());
        let found = settle(p);
        match tr.last() {
            None => {
                if tr.contains(Some(st)) {
                    let j = choose|j: int| 0 <= j < tr.len() && tr[j] == Some(st);
                    assert(p[j] == Some(st));
                }
            },
            Some(x) => {
                if found.contains(st) && !found.contains(x) {
                    let j = choose|j: int| 0 <= j < found.len() && found[j] == st;
                    assert(found.push(x)[j] == st);
                }
                if x == st && !found.contains(x) {
                    assert(found.push(x)[found.len() as int] == st);
                }
                if tr.contains(Some(st)) && x != st {
                    let j = choose|j: int| 0 <= j < tr.len() && tr[j] == Some(st);
                    assert(p[j] == Some(st));
                }
                if settle(tr).contains(st) && x != st && !found.contains(x) {
                    let j = choose|j: int| 0 <= j < found.push(x).len() && found.push(x)[j] == st;
                    assert(found[j] == st);
                }
            },
        }
    }
}

/// Whether a stack on the trace can read `text`.
pub open spec fn trace_spells(rs: Seq<Seq<Elem>>, tr: Seq<Option<Seq<Frame>>>, text: Seq<u32>) -> bool {
    exists|j: int| 0 <= j < tr.len() && match #[trigger] tr[j] {
        Some(st) => can_spell(rs, st, text),
        None => false,
    }
}

proof fn lemma_trace_spells_add(
    rs: Seq<Seq<Elem>>,
    a: Seq<Option<Seq<Frame>>>,
    b: Seq<Option<Seq<Frame>>>,
    text: Seq<u32>,
)
    ensures
        trace_spells(rs, a + b, text) <==> trace_spells(rs, a, text) || trace_spells(rs, b, text),
{
    let c = a + b;
    if trace_spells(rs, a, text) {
        let j = choose|j: int| 0 <= j < a.len() && match #[trigger] a[j] {
            Some(st) => can_spell(rs, st, text),
            None => false,
        };
        assert(c[j] == a[j]);
    }
    if trace_spells(rs, b, text) {
        let j = choose|j: int| 0 <= j < b.len() && match #[trigger] b[j] {
            Some(st) => can_spell(rs, st, text),
            None => false,
        };
        assert(c[a.len() + j] == b[j]);
    }
    if trace_spells(rs, c, text) {
        let j = choose|j: int| 0 <= j < c.len() && match #[trigger] c[j] {
            Some(st) => can_spell(rs, st, text),
            None => false,
        };
        if j < a.len() {
            assert(a[j] == c[j]);
        } else {
            assert(b[j - a.len()] == c[j]);
        }
    }
}

proof fn lemma_some_spells_add(
    rs: Seq<Seq<Elem>>,
    a: Seq<Seq<Frame>>,
    b: Seq<Seq<Frame>>,
    text: Seq<u32>,
)
    ensures
        some_spells(rs, a + b, text) <==> some_spells(rs, a, text) || some_spells(rs, b, text),
{
    let c = a + b;
    if some_spells(rs, a, text) {
        let j = choose|j: int| 0 <= j < a.len() && can_spell(rs, #[trigger] a[j], text);
        assert(c[j] == a[j]);
    }
    if some_spells(rs, b, text) {
        let j = choose|j: int| 0 <= j < b.len() && can_spell(rs, #[trigger] b[j], text);
        assert(c[a.len() + j] == b[j]);
    }
    if some_spells(rs, c, text) {
        let j = choose|j: int| 0 <= j < c.len() && can_spell(rs, #[trigger] c[j], text);
        if j < a.len() {
            assert(a[j] == c[j]);
        } else {
            assert(b[j - a.len()] == c[j]);
        }
    }
}

/// The stacks on the trace of a worklist read what the worklist reads.
proof fn lemma_trace_all_spells(
    rs: Seq<Seq<Elem>>,
    live: Set<int>,
    work: Seq<Seq<Frame>>,
    text: Seq<u32>,
)
    requires
        grounded(rs, live),
        live_stacks(rs, live, work),
    ensures
        trace_spells(rs, trace_all(rs, work, rs.len()), text) <==> some_spells(rs, work, text),
    decreases trace_all(rs, work, rs.len()).len(),
{
    let d = rs.len();
    if work.len() > 0 {
        let st = work.last();
        let prev = work.drop_last();
        assert(live_stack(rs, live, work[work.len() - 1]));
        assert forall|j: int| 0 <= j < prev.len() implies live_stack(rs, live, #[trigger] prev[j]) by {
            assert(live_stack(rs, live, work[j]));
        }
        assert(work =~= prev + seq![st]);
        lemma_some_spells_add(rs, prev, seq![st], text);
        assert(seq![st][0] == st);
        assert(some_spells(rs, seq![st], text) <==> can_spell(rs, st, text)) by {
            if some_spells(rs, seq![st], text) {
                let j = choose|j: int| 0 <= j < seq![st].len() && can_spell(rs, #[trigger] seq![st][j], text);
            }
        }
        if st.len() > 0 {
            lemma_trace_step(rs, live, st);
        }
        if at_rest(rs, st) {
            let two: Seq<Option<Seq<Frame>>> = seq![None, Some(st)];
            assert(trace(rs, st, d) =~= two);
            lemma_trace_all_spells(rs, live, prev, text);
            lemma_trace_spells_add(rs, two, trace_all(rs, prev, d), text);
            assert(two[1] == Some(st));
            assert(trace_spells(rs, two, text) <==> can_spell(rs, st, text));
        } else {
            let ms = moves(rs, st);
            let one: Seq<Option<Seq<Frame>>> = seq![None];
            lemma_moves_live(rs, live, st);
            lemma_trace_all_add(rs, prev, ms, d);
            assert forall|j: int| 0 <= j < (prev + ms).len() implies live_stack(
                rs,
                live,
                #[trigger] (prev + ms)[j],
            ) by {
                if j < prev.len() {
                    assert((prev + ms)[j] == prev[j]);
                } else {
                    assert((prev + ms)[j] == ms[j - prev.len()]);
                }
            }
            assert(trace_all(rs, work, d) =~= one + trace_all(rs, prev + ms, d));
            lemma_trace_all_spells(rs, live, prev + ms, text);
            lemma_trace_spells_add(rs, one, trace_all(rs, prev + ms, d), text);
            assert(!trace_spells(rs, one, text));
            lemma_some_spells_add(rs, prev, ms, text);
            lemma_moves_spell(rs, live, st, text);
        }
    } else {
        assert(trace_all(rs, work, d) =~= seq![]);
    }
}

/// A state settles into one that reads the same texts.
proof fn lemma_advance_spells(
    rs: Seq<Seq<Elem>>,
    live: Set<int>,
    stacks: Seq<Seq<Frame>>,
    text: Seq<u32>,
)
    requires
        grounded(rs, live),
        live_stacks(rs, live, stacks),
    ensures
        some_spells(rs, advance(rs, stacks), text) <==> some_spells(rs, stacks, text),
{
    let tr = trace_all(rs, stacks, rs.len());
    let out = advance(rs, stacks);
    lemma_trace_all_spells(rs, live, stacks, text);
    if some_spells(rs, out, text) {
        let j = choose|j: int| 0 <= j < out.len() && can_spell(rs, #[trigger] out[j], text);
        lemma_settle(tr, out[j]);
        let i = choose|i: int| 0 <= i < tr.len() && tr[i] == Some(out[j]);
        assert(tr[i] == Some(out[j]));
    }
    if trace_spells(rs, tr, text) {
        let i = choose|i: int| 0 <= i < tr.len() && match #[trigger] tr[i] {
            Some(st) => can_spell(rs, st, text),
            None => false,
        };
        let st = tr[i]->0;
        lemma_settle(tr, st);
        let j = choose|j: int| 0 <= j < out.len() && out[j] == st;
        assert(can_spell(rs, out[j], text));
    }
}

/// The stacks of a settled state are at rest.
proof fn lemma_advance_rests(rs: Seq<Seq<Elem>>, live: Set<int>, work: Seq<Seq<Frame>>)
    requires
        grounded(rs, live),
        live_stacks(rs, live, work),
    ensures
        forall|j: int|
            0 <= j < trace_all(rs, work, rs.len()).len() ==> match #[trigger] trace_all(
                rs,
                work,
                rs.len(),
            )[j] {
                Some(st) => at_rest(rs, st) && live_stack(rs, live, st),
                None => true,
            },
    decreases trace_all(rs, work, rs.len()).len(),
{
    let d = rs.len();
    if work.len() > 0 {
        let st = work.last();
        let prev = work.drop_last();
        assert(live_stack(rs, live, work[work.len() - 1]));
        assert forall|j: int| 0 <= j < prev.len() implies live_stack(rs, live, #[trigger] prev[j]) by {
            assert(live_stack(rs, live, work[j]));
        }
        if st.len() > 0 {
            lemma_trace_step(rs, live, st);
        }
        if at_rest(rs, st) {
            let two: Seq<Option<Seq<Frame>>> = seq![None, Some(st)];
            assert(trace(rs, st, d) =~= two);
            lemma_advance_rests(rs, live, prev);
        } else {
            let ms = moves(rs, st);
            lemma_moves_live(rs, live, st);
            lemma_trace_all_add(rs, prev, ms, d);
            assert forall|j: int| 0 <= j < (prev + ms).len() implies live_stack(
                rs,
                live,
                #[trigger] (prev + ms)[j],
            ) by {
                if j < prev.len() {
                    assert((prev + ms)[j] == prev[j]);
                } else {
                    assert((prev + ms)[j] == ms[j - prev.len()]);
                }
            }
            assert(trace_all(rs, work, d) =~= seq![None] + trace_all(rs, prev + ms, d));
            lemma_advance_rests(rs, live, prev + ms);
        }
    }
}

/// A step keeps a state in order.
proof fn lemma_advance_state(
    rs: Seq<Seq<Elem>>,
    root: int,
    live: Set<int>,
    work: Seq<Seq<Frame>>,
)
    requires
        grounded(rs, live),
        live.contains(root),
        live_stacks(rs, live, work),
    ensures
        state_in(rs, root, live, advance(rs, work)),
{
    let tr = trace_all(rs, work, rs.len());
    let out = advance(rs, work);
    lemma_advance_rests(rs, live, work);
    assert forall|j: int| 0 <= j < out.len() implies at_rest(rs, #[trigger] out[j]) && live_stack(
        rs,
        live,
        out[j],
    ) by {
        lemma_settle(tr, out[j]);
        let i = choose|i: int| 0 <= i < tr.len() && tr[i] == Some(out[j]);
        assert(tr[i] == Some(out[j]));
    }
}

/// Moving past a character set, for all stacks of a state at once.
proof fn lemma_shift_spells(
    rs: Seq<Seq<Elem>>,
    root: int,
    live: Set<int>,
    stacks: Seq<Seq<Frame>>,
    text: Seq<u32>,
)
    requires
        state_in(rs, root, live, stacks),
        text.len() > 0,
    ensures
        some_spells(rs, shift(rs, stacks, text[0]), text.drop_first()) <==> some_spells(
            rs,
            stacks,
            text,
        ),
    decreases stacks.len(),
{
    if stacks.len() > 0 {
        let prev = stacks.drop_last();
        let st = stacks.last();
        let c = text[0];
        let u = text.drop_first();
        assert(live_stack(rs, live, stacks[stacks.len() - 1]));
        assert(at_rest(rs, stacks[stacks.len() - 1]));
        assert forall|j: int| 0 <= j < prev.len() implies live_stack(rs, live, #[trigger] prev[j]) && at_rest(
            rs,
            prev[j],
        ) by {
            assert(live_stack(rs, live, stacks[j]));
            assert(at_rest(rs, stacks[j]));
        }
        lemma_shift_spells(rs, root, live, prev, text);
        assert(stacks =~= prev + seq![st]);
        lemma_some_spells_add(rs, prev, seq![st], text);
        lemma_one_spells(rs, st, text);
        if st.len() > 0 {
            assert(live_frame(rs, live, st[st.len() - 1]));
            assert(sound_rule(rs, st.last().0));
            lemma_rest_spells(rs, st, text);
        } else {
            assert(!can_spell(rs, st, text));
        }
        if takes(rs, st, c) {
            let p = shift(rs, prev, c);
            assert(shift(rs, stacks, c) =~= p + seq![past(rs, st)]);
            lemma_some_spells_add(rs, p, seq![past(rs, st)], u);
            lemma_one_spells(rs, past(rs, st), u);
        }
    } else {
        assert(!some_spells(rs, stacks, text));
        assert(!some_spells(rs, shift(rs, stacks, text[0]), text.drop_first()));
    }
}

proof fn lemma_one_spells(rs: Seq<Seq<Elem>>, st: Seq<Frame>, text: Seq<u32>)
    ensures
        some_spells(rs, seq![st], text) <==> can_spell(rs, st, text),
{
    assert(seq![st][0] == st);
    if some_spells(rs, seq![st], text) {
        let j = choose|j: int| 0 <= j < seq![st].len() && can_spell(rs, #[trigger] seq![st][j], text);
        assert(j == 0);
    }
}

/// The codepoints of a text.
pub open spec fn codes(text: Seq<char>) -> Seq<u32> {
    text.map_values(|c: char| c as u32)
}

proof fn lemma_feed_spells(
    rs: Seq<Seq<Elem>>,
    root: int,
    live: Set<int>,
    stacks: Seq<Seq<Frame>>,
    text: Seq<char>,
)
    requires
        state_in(rs, root, live, stacks),
    ensures
        ({
            let (out, dead) = feed_all(rs, stacks, text);
            (!dead && some_done(out)) <==> some_spells(rs, stacks, codes(text))
        }),
    decreases text.len(),
{
    let t = codes(text);
    if text.len() == 0 {
        if some_done(stacks) {
            let i = choose|i: int| 0 <= i < stacks.len() && (#[trigger] stacks[i]).len() == 0;
            assert(spells(rs, stacks[i], t, 0));
            assert(can_spell(rs, stacks[i], t));
        }
        if some_spells(rs, stacks, t) {
            let j = choose|j: int| 0 <= j < stacks.len() && can_spell(rs, #[trigger] stacks[j], t);
            let st = stacks[j];
            if st.len() > 0 {
                assert(live_stack(rs, live, st));
                assert(live_frame(rs, live, st[st.len() - 1]));
                assert(sound_rule(rs, st.last().0));
                assert(at_rest(rs, st));
                lemma_rest_spells(rs, st, t);
            }
        }
    } else {
        let c = text[0] as u32;
        assert(t[0] == c);
        assert(t.drop_first() =~= codes(text.drop_first()));
        let s1 = shift(rs, stacks, c);
        lemma_shift_spells(rs, root, live, stacks, t);
        lemma_shift_live(rs, live, stacks, c);
        lemma_advance_spells(rs, live, s1, t.drop_first());
        lemma_advance_state(rs, root, live, s1);
        if all_done(stacks) || stacks.len() == 0 {
            lemma_step_done(rs, stacks, c);
            assert(!some_spells(rs, step(rs, stacks, c), t.drop_first()));
        } else {
            let next = step(rs, stacks, c);
            if next.len() == 0 {
                assert(!some_spells(rs, next, t.drop_first()));
            } else {
                lemma_feed_spells(rs, root, live, next, text.drop_first());
            }
        }
    }
}

/// A matcher that has been fed a text from the start may stop there exactly when the
/// text is in the language of its grammar.
pub proof fn matcher_accepts_the_language(rs: Seq<Seq<Elem>>, root: int, text: Seq<char>)
    requires
        sound_from(rs, root),
    ensures
        ({
            let (out, dead) = feed_all(rs, initial(rs, root), text);
            (!dead && some_done(out)) <==> in_language(rs, root, codes(text))
        }),
{
    let live = choose|live: Set<int>| #[trigger] closed_under(rs, live) && live.contains(root);
    let t = codes(text);
    let sts = starts(rs[root]);
    let init = calls(seq![], root, sts);
    assert(sound_rule(rs, root));
    lemma_starts_inside(rs[root]);
    assert forall|j: int| 0 <= j < init.len() implies live_stack(rs, live, #[trigger] init[j]) by {
        assert(init[j] =~= seq![(root, sts[j])]);
    }
    lemma_advance_state(rs, root, live, init);
    lemma_feed_spells(rs, root, live, initial(rs, root), text);
    lemma_advance_spells(rs, live, init, t);
    if some_spells(rs, init, t) {
        let a = choose|j: int| 0 <= j < init.len() && can_spell(rs, #[trigger] init[j], t);
        let n = choose|n: nat| #[trigger] spells(rs, init[a], t, n);
        let st = init[a];
        assert(st.last() == (root, sts[a]));
        assert(st.drop_last() =~= seq![]);
        let k = choose|k: int|
            #![trigger t.take(k)]
            0 <= k <= t.len() && derives(rs, root, sts[a], t.take(k), n) && spells(
                rs,
                bump(st.drop_last()),
                t.skip(k),
                n,
            );
        assert(t.take(k) =~= t);
    }
    if in_language(rs, root, t) {
        let (a, n) = choose|a: int, n: nat|
            0 <= a < sts.len() && #[trigger] derives(rs, root, sts[a], t, n);
        assert(t.take(t.len() as int) =~= t);
        assert(spells(rs, bump(seq![]), t.skip(t.len() as int), n));
        lemma_spells_top(rs, seq![], (root, sts[a]), t, t.len() as int, n);
        assert(init[a] == Seq::<Frame>::empty().push((root, sts[a])));
        assert(can_spell(rs, init[a], t));
    }
}

} // verus!
