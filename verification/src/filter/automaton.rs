//! The nondeterministic stack machine behind grammar-constrained decoding.
//!
//! A compiled grammar is a list of rules, each a flat row of elements. A stack
//! lists positions in those rows, innermost last. A machine state is an ordered
//! set of stacks, each of which is either empty (a finished parse) or has a
//! character set on top.
use vstd::prelude::*;

verus! {

/// One element of a compiled rule.
#[derive(Clone, Copy, Debug, PartialEq, Eq, Structural)]
pub enum Elem {
    /// The end of a rule.
    End,
    /// The boundary between two alternates.
    Alt,
    /// A reference to the rule of that number.
    RuleRef(usize),
    /// A character set that starts with this codepoint.
    Char(u32),
    /// A negated character set that starts with this codepoint.
    CharNot(u32),
    /// The upper bound of the range whose lower bound stands just before.
    CharRngUpper(u32),
    /// One more codepoint (or lower bound) of the character set before it.
    CharAlt(u32),
}

/// A place in a grammar: rule number, index in the rule's row.
pub type Pos = (usize, usize);

/// A place in a grammar, as mathematical integers.
pub type Frame = (int, int);

/// The rows of a vector of vectors.
pub open spec fn rows<T>(v: Seq<Vec<T>>) -> Seq<Seq<T>> {
    Seq::new(v.len(), |i: int| v[i]@)
}

/// A stack of places as a sequence of frames.
pub open spec fn frames(v: Seq<Pos>) -> Seq<Frame> {
    Seq::new(v.len(), |i: int| (v[i].0 as int, v[i].1 as int))
}

/// A list of stacks, each as a sequence of frames.
pub open spec fn stacks_of(v: Seq<Vec<Pos>>) -> Seq<Seq<Frame>> {
    Seq::new(v.len(), |i: int| frames(v[i]@))
}

/// Whether `(r, i)` is a place of the grammar.
pub open spec fn on_rule(rs: Seq<Seq<Elem>>, r: int, i: int) -> bool {
    0 <= r < rs.len() && 0 <= i < rs[r].len()
}

/// Where the alternates that begin within the first `n` elements of `rule` begin:
/// at its start, and just after each boundary.
pub open spec fn starts_upto(rule: Seq<Elem>, n: int) -> Seq<int>
    decreases n,
{
    if n <= 0 {
        seq![0]
    } else if rule[n - 1] == Elem::Alt {
        starts_upto(rule, n - 1).push(n)
    } else {
        starts_upto(rule, n - 1)
    }
}

/// Where the alternates of `rule` begin, in order.
pub open spec fn starts(rule: Seq<Elem>) -> Seq<int> {
    starts_upto(rule, rule.len() as int)
}

/// What can come of the top frame of a stack before it needs input.
pub enum Out {
    /// One place was visited.
    Tick,
    /// The frame's rule ended.
    Done,
    /// The machine waits on a character set: the frame and what it called.
    Stop(Seq<Frame>),
}

/// What comes of a caller at frame `f`, given what came of its callee (`list`) and
/// what comes of the caller once the callee has ended (`k`).
pub open spec fn graft(list: Seq<Out>, f: Frame, k: Seq<Out>) -> Seq<Out>
    decreases list.len(),
{
    if list.len() == 0 {
        seq![]
    } else {
        graft(list.drop_last(), f, k) + match list.last() {
            Out::Tick => seq![Out::Tick],
            Out::Done => k,
            Out::Stop(fs) => seq![Out::Stop(seq![f] + fs)],
        }
    }
}

/// What comes of frame `(r, i)`, in the order in which the machine finds it, where
/// calls nest at most `d` deep.
pub open spec fn outs(rs: Seq<Seq<Elem>>, r: int, i: int, d: nat) -> Seq<Out>
    decreases d, rs[r].len() - i, 0nat,
{
    if !on_rule(rs, r, i) {
        seq![]
    } else {
        match rs[r][i] {
            Elem::End => seq![Out::Tick, Out::Done],
            Elem::Alt => if i < rs[r].len() - 1 {
                seq![Out::Tick] + outs(rs, r, rs[r].len() - 1, d)
            } else {
                seq![]
            },
            Elem::RuleRef(s) => if d == 0 || !(s < rs.len()) {
                seq![]
            } else {
                seq![Out::Tick] + graft(
                    outs_alts(rs, s as int, starts(rs[s as int]), (d - 1) as nat),
                    (r, i),
                    outs(rs, r, i + 1, d),
                )
            },
            Elem::Char(_) => seq![Out::Tick, Out::Stop(seq![(r, i)])],
            Elem::CharNot(_) => seq![Out::Tick, Out::Stop(seq![(r, i)])],
            Elem::CharRngUpper(_) => seq![Out::Tick] + outs(rs, r, i + 1, d),
            Elem::CharAlt(_) => seq![Out::Tick] + outs(rs, r, i + 1, d),
        }
    }
}

/// What comes of the frames `(s, st)` for `st` in `sts`, the last one first.
pub open spec fn outs_alts(rs: Seq<Seq<Elem>>, s: int, sts: Seq<int>, d: nat) -> Seq<Out>
    decreases d, rs[s].len() + 1, sts.len(),
{
    if sts.len() == 0 {
        seq![]
    } else if !(0 <= sts.last() <= rs[s].len()) {
        seq![]
    } else {
        outs(rs, s, sts.last(), d) + outs_alts(rs, s, sts.drop_last(), d)
    }
}

/// The stack below a finished rule: its top frame moves past the reference.
pub open spec fn bump(rest: Seq<Frame>) -> Seq<Frame> {
    if rest.len() == 0 {
        rest
    } else {
        rest.drop_last().push((rest.last().0, rest.last().1 + 1))
    }
}

/// What comes of a stack `rest + [f]`, given what comes of `f` alone (`list`) and
/// what comes of the stack once the rule of `f` has ended (`k`).
pub open spec fn splice(
    list: Seq<Out>,
    rest: Seq<Frame>,
    k: Seq<Option<Seq<Frame>>>,
) -> Seq<Option<Seq<Frame>>>
    decreases list.len(),
{
    if list.len() == 0 {
        seq![]
    } else {
        splice(list.drop_last(), rest, k) + match list.last() {
            Out::Tick => seq![None],
            Out::Done => k,
            Out::Stop(fs) => seq![Some(rest + fs)],
        }
    }
}

/// The stacks that wait for input (or are empty) into which `st` can turn without
/// input, in the order in which the machine finds them, with one `None` for each
/// stack that it visits.
pub open spec fn trace(rs: Seq<Seq<Elem>>, st: Seq<Frame>, d: nat) -> Seq<Option<Seq<Frame>>>
    decreases st.len(),
{
    if st.len() == 0 {
        seq![None, Some(st)]
    } else {
        let rest = st.drop_last();
        splice(outs(rs, st.last().0, st.last().1, d), rest, trace(rs, bump(rest), d))
    }
}

/// The traces of all stacks of a worklist, the last stack first.
pub open spec fn trace_all(rs: Seq<Seq<Elem>>, work: Seq<Seq<Frame>>, d: nat) -> Seq<
    Option<Seq<Frame>>,
>
    decreases work.len(),
{
    if work.len() == 0 {
        seq![]
    } else {
        trace(rs, work.last(), d) + trace_all(rs, work.drop_last(), d)
    }
}

/// The stacks found along a trace, each at its first occurrence.
pub open spec fn settle(tr: Seq<Option<Seq<Frame>>>) -> Seq<Seq<Frame>>
    decreases tr.len(),
{
    if tr.len() == 0 {
        seq![]
    } else {
        let found = settle(tr.drop_last());
        match tr.last() {
            None => found,
            Some(st) => if found.contains(st) {
                found
            } else {
                found.push(st)
            },
        }
    }
}

/// The machine state that a list of stacks settles into without input.
pub open spec fn advance(rs: Seq<Seq<Elem>>, stacks: Seq<Seq<Frame>>) -> Seq<Seq<Frame>> {
    settle(trace_all(rs, stacks, rs.len()))
}

/// Whether the machine, started at frame `(r, i)`, comes to rest with calls nested
/// at most `d` deep (`Some`), and then whether it can come to the end of the rule
/// without input.
pub open spec fn probe(rs: Seq<Seq<Elem>>, r: int, i: int, d: nat) -> Option<bool>
    decreases d, rs[r].len() - i, 0nat,
{
    if !on_rule(rs, r, i) {
        None
    } else {
        match rs[r][i] {
            Elem::End => Some(true),
            Elem::Alt => Some(true),
            Elem::RuleRef(s) => if d == 0 || !(s < rs.len()) {
                None
            } else {
                match probe_alts(rs, s as int, starts(rs[s as int]), (d - 1) as nat) {
                    None => None,
                    Some(false) => Some(false),
                    Some(true) => probe(rs, r, i + 1, d),
                }
            },
            Elem::Char(_) => Some(false),
            Elem::CharNot(_) => Some(false),
            Elem::CharRngUpper(_) => probe(rs, r, i + 1, d),
            Elem::CharAlt(_) => probe(rs, r, i + 1, d),
        }
    }
}

/// As [`probe`], for the frames `(s, st)` with `st` in `sts` together.
pub open spec fn probe_alts(rs: Seq<Seq<Elem>>, s: int, sts: Seq<int>, d: nat) -> Option<bool>
    decreases d, rs[s].len() + 1, sts.len(),
{
    if sts.len() == 0 {
        Some(false)
    } else if !(0 <= sts.last() <= rs[s].len()) {
        None
    } else {
        match (probe(rs, s, sts.last(), d), probe_alts(rs, s, sts.drop_last(), d)) {
            (Some(a), Some(b)) => Some(a || b),
            _ => None,
        }
    }
}

/// A rule whose only `End` is its last element.
pub open spec fn shaped(rule: Seq<Elem>) -> bool {
    &&& rule.len() > 0
    &&& rule.last() == Elem::End
    &&& forall|i: int| 0 <= i < rule.len() - 1 ==> rule[i] != Elem::End
}

/// A grammar whose rules are shaped, but for those that were never defined.
pub open spec fn tidy(rs: Seq<Seq<Elem>>) -> bool {
    forall|s: int| 0 <= s < rs.len() && rs[s].len() > 0 ==> shaped(#[trigger] rs[s])
}

/// A rule that is defined, and from each place of which the machine comes to rest.
pub open spec fn sound_rule(rs: Seq<Seq<Elem>>, r: int) -> bool {
    &&& 0 <= r < rs.len()
    &&& rs[r].len() > 0
    &&& forall|i: int| 0 <= i < rs[r].len() ==> #[trigger] probe(rs, r, i, rs.len()) is Some
}

/// Whether `live` is closed under references and holds sound rules only.
pub open spec fn closed_under(rs: Seq<Seq<Elem>>, live: Set<int>) -> bool {
    &&& forall|r: int| #[trigger] live.contains(r) ==> sound_rule(rs, r)
    &&& forall|r: int, i: int|
        live.contains(r) && 0 <= i < rs[r].len() ==> match #[trigger] rs[r][i] {
            Elem::RuleRef(s) => live.contains(s as int),
            _ => true,
        }
}


proof fn lemma_graft_add(a: Seq<Out>, b: Seq<Out>, f: Frame, k: Seq<Out>)
    ensures
        graft(a + b, f, k) == graft(a, f, k) + graft(b, f, k),
    decreases b.len(),
{
    if b.len() == 0 {
        assert(a + b =~= a);
    } else {
        lemma_graft_add(a, b.drop_last(), f, k);
        assert((a + b).drop_last() =~= a + b.drop_last());
    }
}

proof fn lemma_splice_add(
    a: Seq<Out>,
    b: Seq<Out>,
    rest: Seq<Frame>,
    k: Seq<Option<Seq<Frame>>>,
)
    ensures
        splice(a + b, rest, k) == splice(a, rest, k) + splice(b, rest, k),
    decreases b.len(),
{
    if b.len() == 0 {
        assert(a + b =~= a);
    } else {
        lemma_splice_add(a, b.drop_last(), rest, k);
        assert((a + b).drop_last() =~= a + b.drop_last());
    }
}

proof fn lemma_splice_graft(
    list: Seq<Out>,
    f: Frame,
    mid: Seq<Out>,
    rest: Seq<Frame>,
    k: Seq<Option<Seq<Frame>>>,
)
    ensures
        splice(graft(list, f, mid), rest, k) == splice(list, rest.push(f), splice(mid, rest, k)),
    decreases list.len(),
{
    if list.len() > 0 {
        lemma_splice_graft(list.drop_last(), f, mid, rest, k);
        let tail = match list.last() {
            Out::Tick => seq![Out::Tick],
            Out::Done => mid,
            Out::Stop(fs) => seq![Out::Stop(seq![f] + fs)],
        };
        lemma_splice_add(graft(list.drop_last(), f, mid), tail, rest, k);
        match list.last() {
            Out::Stop(fs) => {
                assert(rest + (seq![f] + fs) =~= rest.push(f) + fs);
                assert(tail.drop_last() =~= seq![]);
                assert(splice(tail.drop_last(), rest, k) =~= seq![]);
            },
            Out::Tick => {
                assert(tail.drop_last() =~= seq![]);
                assert(splice(tail.drop_last(), rest, k) =~= seq![]);
            },
            Out::Done => {},
        }
    }
}

proof fn lemma_add_done(a: Seq<Out>, b: Seq<Out>)
    ensures
        (a + b).contains(Out::Done) <==> a.contains(Out::Done) || b.contains(Out::Done),
{
    if a.contains(Out::Done) {
        let j = choose|j: int| 0 <= j < a.len() && a[j] == Out::Done;
        assert((a + b)[j] == Out::Done);
    }
    if b.contains(Out::Done) {
        let j = choose|j: int| 0 <= j < b.len() && b[j] == Out::Done;
        assert((a + b)[a.len() + j] == Out::Done);
    }
}

proof fn lemma_graft_done(list: Seq<Out>, f: Frame, k: Seq<Out>)
    ensures
        graft(list, f, k).contains(Out::Done) <==> list.contains(Out::Done) && k.contains(
            Out::Done,
        ),
    decreases list.len(),
{
    if list.len() > 0 {
        lemma_graft_done(list.drop_last(), f, k);
        let tail = match list.last() {
            Out::Tick => seq![Out::Tick],
            Out::Done => k,
            Out::Stop(fs) => seq![Out::Stop(seq![f] + fs)],
        };
        lemma_add_done(graft(list.drop_last(), f, k), tail);
        lemma_add_done(list.drop_last(), seq![list.last()]);
        assert(list =~= list.drop_last() + seq![list.last()]);
        assert(seq![list.last()][0] == list.last());
    }
}

/// Nesting deeper than needed changes nothing; and a rule can end without input
/// exactly when its outcomes say so.
proof fn lemma_depth(rs: Seq<Seq<Elem>>, r: int, i: int, d: nat, e: nat)
    requires
        probe(rs, r, i, d) is Some,
        tidy(rs),
        d <= e,
    ensures
        probe(rs, r, i, e) == probe(rs, r, i, d),
        outs(rs, r, i, e) == outs(rs, r, i, d),
        outs(rs, r, i, d).contains(Out::Done) == (probe(rs, r, i, d) == Some(true)),
    decreases d, rs[r].len() - i, 0nat,
{
    match rs[r][i] {
        Elem::End => {
            assert(outs(rs, r, i, d)[1] == Out::Done);
        },
        Elem::Alt => {
            let m = rs[r].len() - 1;
            lemma_depth(rs, r, m, d, e);
            lemma_add_done(seq![Out::Tick], outs(rs, r, m, d));
        },
        Elem::RuleRef(s) => {
            let sts = starts(rs[s as int]);
            let d1 = (d - 1) as nat;
            let e1 = (e - 1) as nat;
            lemma_depth_alts(rs, s as int, sts, d1, e1);
            let list = outs_alts(rs, s as int, sts, d1);
            if probe_alts(rs, s as int, sts, d1) == Some(true) {
                lemma_depth(rs, r, i + 1, d, e);
            } else {
                lemma_graft_no_done(list, (r, i), outs(rs, r, i + 1, d), outs(rs, r, i + 1, e));
            }
            lemma_graft_done(list, (r, i), outs(rs, r, i + 1, d));
            lemma_add_done(seq![Out::Tick], graft(list, (r, i), outs(rs, r, i + 1, d)));
        },
        Elem::CharRngUpper(_) | Elem::CharAlt(_) => {
            lemma_depth(rs, r, i + 1, d, e);
            lemma_add_done(seq![Out::Tick], outs(rs, r, i + 1, d));
        },
        _ => {
            assert(outs(rs, r, i, d) =~= seq![Out::Tick, Out::Stop(seq![(r, i)])]);
        },
    }
}

proof fn lemma_graft_no_done(list: Seq<Out>, f: Frame, k1: Seq<Out>, k2: Seq<Out>)
    requires
        !list.contains(Out::Done),
    ensures
        graft(list, f, k1) == graft(list, f, k2),
    decreases list.len(),
{
    if list.len() > 0 {
        assert(list[list.len() - 1] == list.last());
        assert forall|x: Out| list.drop_last().contains(x) implies list.contains(x) by {
            let j = choose|j: int| 0 <= j < list.drop_last().len() && list.drop_last()[j] == x;
            assert(list[j] == x);
        }
        lemma_graft_no_done(list.drop_last(), f, k1, k2);
    }
}

proof fn lemma_depth_alts(rs: Seq<Seq<Elem>>, s: int, sts: Seq<int>, d: nat, e: nat)
    requires
        probe_alts(rs, s, sts, d) is Some,
        0 <= s < rs.len(),
        tidy(rs),
        d <= e,
    ensures
        probe_alts(rs, s, sts, e) == probe_alts(rs, s, sts, d),
        outs_alts(rs, s, sts, e) == outs_alts(rs, s, sts, d),
        outs_alts(rs, s, sts, d).contains(Out::Done) == (probe_alts(rs, s, sts, d) == Some(true)),
    decreases d, rs[s].len() + 1, sts.len(),
{
    if sts.len() > 0 {
        lemma_depth(rs, s, sts.last(), d, e);
        lemma_depth_alts(rs, s, sts.drop_last(), d, e);
        lemma_add_done(outs(rs, s, sts.last(), d), outs_alts(rs, s, sts.drop_last(), d));
    }
}


/// What a machine state rests on: a tidy grammar and a closed set of sound rules.
pub open spec fn grounded(rs: Seq<Seq<Elem>>, live: Set<int>) -> bool {
    tidy(rs) && closed_under(rs, live)
}

/// A place of a live rule.
pub open spec fn live_frame(rs: Seq<Seq<Elem>>, live: Set<int>, f: Frame) -> bool {
    live.contains(f.0) && 0 <= f.1 < rs[f.0].len()
}

/// A stack of live places in which every frame but the top one stands at a reference.
pub open spec fn live_stack(rs: Seq<Seq<Elem>>, live: Set<int>, st: Seq<Frame>) -> bool {
    &&& forall|j: int| 0 <= j < st.len() ==> live_frame(rs, live, #[trigger] st[j])
    &&& forall|j: int|
        0 <= j < st.len() - 1 ==> rs[(#[trigger] st[j]).0][st[j].1] is RuleRef
}

pub open spec fn live_stacks(rs: Seq<Seq<Elem>>, live: Set<int>, sts: Seq<Seq<Frame>>) -> bool {
    forall|j: int| 0 <= j < sts.len() ==> live_stack(rs, live, #[trigger] sts[j])
}

/// A stack that waits for input, or is empty.
pub open spec fn at_rest(rs: Seq<Seq<Elem>>, st: Seq<Frame>) -> bool {
    st.len() == 0 || rs[st.last().0][st.last().1] is Char || rs[st.last().0][st.last().1] is CharNot
}

/// The stacks into which `st` turns in one step without input, in the order in which
/// they are put on the worklist.
pub open spec fn moves(rs: Seq<Seq<Elem>>, st: Seq<Frame>) -> Seq<Seq<Frame>> {
    let (r, i) = st.last();
    match rs[r][i] {
        Elem::End => seq![bump(st.drop_last())],
        Elem::Alt => seq![st.drop_last().push((r, rs[r].len() - 1))],
        Elem::RuleRef(s) => calls(st, s as int, starts(rs[s as int])),
        Elem::Char(_) => seq![],
        Elem::CharNot(_) => seq![],
        Elem::CharRngUpper(_) => seq![bump(st)],
        Elem::CharAlt(_) => seq![bump(st)],
    }
}

/// `st` with a call of rule `s` on top, one for each start in `sts`.
pub open spec fn calls(st: Seq<Frame>, s: int, sts: Seq<int>) -> Seq<Seq<Frame>> {
    Seq::new(sts.len(), |k: int| st.push((s, sts[k])))
}

proof fn lemma_starts(rule: Seq<Elem>, n: int)
    requires
        0 <= n <= rule.len(),
    ensures
        starts_upto(rule, n).len() > 0,
        forall|k: int| 0 <= k < starts_upto(rule, n).len() ==> 0 <= #[trigger] starts_upto(rule, n)[k] <= n,
        forall|k: int|
            0 <= k < starts_upto(rule, n).len() ==> (#[trigger] starts_upto(rule, n)[k] == 0 || rule[
                starts_upto(rule, n)[k] - 1] == Elem::Alt),
    decreases n,
{
    if n > 0 {
        lemma_starts(rule, n - 1);
    }
}

pub proof fn lemma_starts_inside(rule: Seq<Elem>)
    requires
        shaped(rule),
    ensures
        starts(rule).len() > 0,
        forall|k: int| 0 <= k < starts(rule).len() ==> 0 <= #[trigger] starts(rule)[k] < rule.len(),
{
    lemma_starts(rule, rule.len() as int);
    assert forall|k: int| 0 <= k < starts(rule).len() implies 0 <= #[trigger] starts(rule)[k] < rule.len() by {
        if starts(rule)[k] == rule.len() {
            assert(rule[rule.len() - 1] == Elem::End);
        }
    }
}

/// A step without input leads from live stacks to live stacks.
pub proof fn lemma_moves_live(rs: Seq<Seq<Elem>>, live: Set<int>, st: Seq<Frame>)
    requires
        grounded(rs, live),
        live_stack(rs, live, st),
        st.len() > 0,
    ensures
        live_stacks(rs, live, moves(rs, st)),
{
    let (r, i) = st.last();
    assert(live_frame(rs, live, st[st.len() - 1]));
    assert(sound_rule(rs, r));
    assert(shaped(rs[r]));
    match rs[r][i] {
        Elem::RuleRef(s) => {
            assert(sound_rule(rs, s as int));
            lemma_starts_inside(rs[s as int]);
        },
        Elem::End => {
            let rest = st.drop_last();
            if rest.len() > 0 {
                let f = rest.last();
                assert(st[st.len() - 2] == f);
                assert(live_frame(rs, live, f));
                assert(sound_rule(rs, f.0));
            }
        },
        _ => {},
    }
}

/// A trace begins with the visit of the stack itself, and goes on with the traces of
/// its moves; or it ends there, where the stack is at rest.
pub proof fn lemma_trace_step(rs: Seq<Seq<Elem>>, live: Set<int>, st: Seq<Frame>)
    requires
        grounded(rs, live),
        live_stack(rs, live, st),
        st.len() > 0,
    ensures
        at_rest(rs, st) ==> trace(rs, st, rs.len()) == seq![None, Some(st)],
        !at_rest(rs, st) ==> trace(rs, st, rs.len()) == seq![None] + trace_all(
            rs,
            moves(rs, st),
            rs.len(),
        ),
{
    let d = rs.len();
    let (r, i) = st.last();
    let rest = st.drop_last();
    let k = trace(rs, bump(rest), d);
    assert(live_frame(rs, live, st[st.len() - 1]));
    assert(sound_rule(rs, r));
    assert(probe(rs, r, i, d) is Some);
    let one = Seq::<Out>::empty().push(Out::Tick);
    assert(one.drop_last() =~= seq![]);
    assert(splice(seq![], rest, k) =~= seq![]);
    assert(splice(one, rest, k) =~= seq![None]);
    assert(one =~= seq![Out::Tick]);
    match rs[r][i] {
        Elem::End => {
            let two = seq![Out::Tick, Out::Done];
            assert(two.drop_last() =~= one);
            assert(trace(rs, st, d) =~= seq![None] + k);
            lemma_trace_one(rs, bump(rest), d);
        },
        Elem::Alt => {
            let m = rs[r].len() - 1;
            lemma_splice_add(one, outs(rs, r, m, d), rest, k);
            let next = rest.push((r, m));
            assert(next.drop_last() =~= rest);
            lemma_trace_one(rs, next, d);
        },
        Elem::RuleRef(s) => {
            let sts = starts(rs[s as int]);
            let list = outs_alts(rs, s as int, sts, (d - 1) as nat);
            let mid = outs(rs, r, i + 1, d);
            lemma_splice_add(one, graft(list, (r, i), mid), rest, k);
            lemma_splice_graft(list, (r, i), mid, rest, k);
            assert(rest.push((r, i)) =~= st);
            assert(bump(st).drop_last() =~= rest);
            lemma_depth_alts(rs, s as int, sts, (d - 1) as nat, d);
            lemma_trace_calls(rs, st, s as int, sts, d);
        },
        Elem::Char(_) | Elem::CharNot(_) => {
            let two = seq![Out::Tick, Out::Stop(seq![(r, i)])];
            assert(two.drop_last() =~= one);
            assert(rest + seq![(r, i)] =~= st);
            assert(trace(rs, st, d) =~= seq![None, Some(st)]);
        },
        Elem::CharRngUpper(_) | Elem::CharAlt(_) => {
            lemma_splice_add(one, outs(rs, r, i + 1, d), rest, k);
            assert(bump(st).drop_last() =~= rest);
            lemma_trace_one(rs, bump(st), d);
        },
    }
}

proof fn lemma_trace_one(rs: Seq<Seq<Elem>>, st: Seq<Frame>, d: nat)
    ensures
        trace_all(rs, seq![st], d) == trace(rs, st, d),
{
    assert(seq![st].drop_last() =~= seq![]);
    assert(trace_all(rs, seq![st].drop_last(), d) =~= seq![]);
    assert(trace(rs, st, d) + seq![] =~= trace(rs, st, d));
}

proof fn lemma_trace_calls(rs: Seq<Seq<Elem>>, st: Seq<Frame>, s: int, sts: Seq<int>, d: nat)
    requires
        probe_alts(rs, s, sts, d) is Some,
        st.len() > 0,
    ensures
        trace_all(rs, calls(st, s, sts), d) == splice(
            outs_alts(rs, s, sts, d),
            st,
            trace(rs, bump(st), d),
        ),
    decreases sts.len(),
{
    let c = calls(st, s, sts);
    if sts.len() > 0 {
        lemma_trace_calls(rs, st, s, sts.drop_last(), d);
        assert(c.drop_last() =~= calls(st, s, sts.drop_last()));
        assert(c.last().drop_last() =~= st);
        lemma_splice_add(
            outs(rs, s, sts.last(), d),
            outs_alts(rs, s, sts.drop_last(), d),
            st,
            trace(rs, bump(st), d),
        );
    }
}

pub proof fn lemma_trace_all_add(rs: Seq<Seq<Elem>>, a: Seq<Seq<Frame>>, b: Seq<Seq<Frame>>, d: nat)
    ensures
        trace_all(rs, a + b, d) == trace_all(rs, b, d) + trace_all(rs, a, d),
    decreases b.len(),
{
    if b.len() == 0 {
        assert(a + b =~= a);
    } else {
        lemma_trace_all_add(rs, a, b.drop_last(), d);
        assert((a + b).drop_last() =~= a + b.drop_last());
    }
}


/// Where the further members of a character set end, given where they begin.
pub open spec fn tail_end(rule: Seq<Elem>, i: int) -> int
    decreases rule.len() - i,
{
    if 0 <= i < rule.len() && rule[i] is CharAlt {
        if i + 1 < rule.len() && rule[i + 1] is CharRngUpper {
            tail_end(rule, i + 2)
        } else {
            tail_end(rule, i + 1)
        }
    } else {
        i
    }
}

/// Whether one of the further members of a character set, which begin at `i`, is `c`
/// or a range that holds `c`.
pub open spec fn tail_has(rule: Seq<Elem>, i: int, c: u32) -> bool
    decreases rule.len() - i,
{
    if 0 <= i < rule.len() && rule[i] is CharAlt {
        let lo = rule[i]->CharAlt_0;
        if i + 1 < rule.len() && rule[i + 1] is CharRngUpper {
            lo <= c <= rule[i + 1]->CharRngUpper_0 || tail_has(rule, i + 2, c)
        } else {
            c == lo || tail_has(rule, i + 1, c)
        }
    } else {
        false
    }
}

/// Whether the first member of a set is a range.
pub open spec fn ranged(rule: Seq<Elem>, i: int) -> bool {
    i + 1 < rule.len() && rule[i + 1] is CharRngUpper
}

/// Where the character set that begins at `i` ends.
pub open spec fn set_end(rule: Seq<Elem>, i: int) -> int {
    tail_end(rule, if ranged(rule, i) { i + 2 } else { i + 1 })
}

/// Whether `c` is among the members listed in the character set that begins at `i`
/// with `lo`.
pub open spec fn listed(rule: Seq<Elem>, i: int, lo: u32, c: u32) -> bool {
    if ranged(rule, i) {
        lo <= c <= rule[i + 1]->CharRngUpper_0 || tail_has(rule, i + 2, c)
    } else {
        c == lo || tail_has(rule, i + 1, c)
    }
}

/// Whether the character set that begins at `i` holds `c`. A negated set whose first
/// member is a lone zero leaves out its further members only.
pub open spec fn set_has(rule: Seq<Elem>, i: int, c: u32) -> bool {
    match rule[i] {
        Elem::Char(lo) => listed(rule, i, lo, c),
        Elem::CharNot(lo) => if lo == 0 && !ranged(rule, i) && i + 1 < rule.len() {
            !tail_has(rule, i + 1, c)
        } else {
            !listed(rule, i, lo, c)
        },
        _ => false,
    }
}

/// Whether a stack waits on a character set that holds `c`.
pub open spec fn takes(rs: Seq<Seq<Elem>>, st: Seq<Frame>, c: u32) -> bool {
    st.len() > 0 && on_rule(rs, st.last().0, st.last().1) && set_has(
        rs[st.last().0],
        st.last().1,
        c,
    )
}

/// A stack whose top has moved past its character set.
pub open spec fn past(rs: Seq<Seq<Elem>>, st: Seq<Frame>) -> Seq<Frame> {
    st.drop_last().push((st.last().0, set_end(rs[st.last().0], st.last().1)))
}

/// The stacks that take `c`, each moved past its character set.
pub open spec fn shift(rs: Seq<Seq<Elem>>, stacks: Seq<Seq<Frame>>, c: u32) -> Seq<Seq<Frame>>
    decreases stacks.len(),
{
    if stacks.len() == 0 {
        seq![]
    } else if takes(rs, stacks.last(), c) {
        shift(rs, stacks.drop_last(), c).push(past(rs, stacks.last()))
    } else {
        shift(rs, stacks.drop_last(), c)
    }
}

/// The machine state after `c`.
pub open spec fn step(rs: Seq<Seq<Elem>>, stacks: Seq<Seq<Frame>>, c: u32) -> Seq<Seq<Frame>> {
    advance(rs, shift(rs, stacks, c))
}

proof fn lemma_tail_end(rule: Seq<Elem>, i: int)
    requires
        shaped(rule),
        0 <= i < rule.len(),
    ensures
        i <= tail_end(rule, i) < rule.len(),
    decreases rule.len() - i,
{
    if rule[i] is CharAlt {
        if i + 1 < rule.len() && rule[i + 1] is CharRngUpper {
            lemma_tail_end(rule, i + 2);
        } else {
            lemma_tail_end(rule, i + 1);
        }
    }
}

pub proof fn lemma_shift_live(rs: Seq<Seq<Elem>>, live: Set<int>, stacks: Seq<Seq<Frame>>, c: u32)
    requires
        grounded(rs, live),
        live_stacks(rs, live, stacks),
    ensures
        live_stacks(rs, live, shift(rs, stacks, c)),
    decreases stacks.len(),
{
    if stacks.len() > 0 {
        let st = stacks.last();
        assert(live_stack(rs, live, stacks[stacks.len() - 1]));
        assert forall|j: int| 0 <= j < stacks.drop_last().len() implies live_stack(
            rs,
            live,
            #[trigger] stacks.drop_last()[j],
        ) by {
            assert(live_stack(rs, live, stacks[j]));
        }
        lemma_shift_live(rs, live, stacks.drop_last(), c);
        if takes(rs, st, c) {
            let (r, i) = st.last();
            assert(live_frame(rs, live, st[st.len() - 1]));
            assert(sound_rule(rs, r));
            assert(shaped(rs[r]));
            lemma_tail_end(rs[r], if ranged(rs[r], i) { i + 2 } else { i + 1 });
            assert(live_stack(rs, live, past(rs, st))) by {
                let p = past(rs, st);
                assert forall|j: int| 0 <= j < p.len() implies live_frame(rs, live, #[trigger] p[j]) by {
                    if j < p.len() - 1 {
                        assert(p[j] == st[j]);
                    }
                }
                assert forall|j: int| 0 <= j < p.len() - 1 implies rs[(#[trigger] p[j]).0][p[j].1] is RuleRef by {
                    assert(p[j] == st[j]);
                }
            }
        }
    }
}

/// Where the alternates of `rule` begin.
pub(crate) fn alt_starts(rule: &Vec<Elem>) -> (v: Vec<usize>)
    ensures
        v@.map_values(|x: usize| x as int) == starts(rule@),
{
    let mut v: Vec<usize> = Vec::new();
    v.push(0);
    assert(v@.map_values(|x: usize| x as int) =~= starts_upto(rule@, 0));
    let mut i: usize = 0;
    while i < rule.len()
        invariant
            i <= rule.len(),
            v@.map_values(|x: usize| x as int) == starts_upto(rule@, i as int),
        decreases rule.len() - i,
    {
        if rule[i] == Elem::Alt {
            v.push(i + 1);
        }
        i = i + 1;
        assert(v@.map_values(|x: usize| x as int) =~= starts_upto(rule@, i as int));
    }
    v
}

fn copy_stack(st: &Vec<Pos>) -> (r: Vec<Pos>)
    ensures
        r@ == st@,
{
    let mut r: Vec<Pos> = Vec::new();
    let mut i: usize = 0;
    while i < st.len()
        invariant
            i <= st.len(),
            r@ == st@.take(i as int),
        decreases st.len() - i,
    {
        r.push(st[i]);
        i = i + 1;
        assert(r@ =~= st@.take(i as int));
    }
    assert(st@.take(st@.len() as int) =~= st@);
    r
}

fn same_stack(a: &Vec<Pos>, b: &Vec<Pos>) -> (r: bool)
    ensures
        r == (frames(a@) == frames(b@)),
{
    if a.len() != b.len() {
        assert(frames(a@).len() != frames(b@).len());
        return false;
    }
    let mut i: usize = 0;
    while i < a.len()
        invariant
            i <= a.len(),
            a.len() == b.len(),
            forall|j: int| 0 <= j < i ==> a[j] == b[j],
        decreases a.len() - i,
    {
        if a[i].0 != b[i].0 || a[i].1 != b[i].1 {
            assert(frames(a@)[i as int] != frames(b@)[i as int]);
            return false;
        }
        i = i + 1;
    }
    assert(a@ =~= b@);
    true
}

fn holds_stack(list: &Vec<Vec<Pos>>, st: &Vec<Pos>) -> (r: bool)
    ensures
        r == stacks_of(list@).contains(frames(st@)),
{
    let mut i: usize = 0;
    while i < list.len()
        invariant
            i <= list.len(),
            forall|j: int| 0 <= j < i ==> frames(#[trigger] list[j]@) != frames(st@),
        decreases list.len() - i,
    {
        if same_stack(&list[i], st) {
            assert(stacks_of(list@)[i as int] == frames(st@));
            return true;
        }
        i = i + 1;
    }
    assert forall|j: int| 0 <= j < list@.len() implies stacks_of(list@)[j] != frames(st@) by {
        assert(frames(list[j]@) != frames(st@));
    }
    false
}

/// The moves of a stack that is not at rest.
fn free_moves(rules: &Vec<Vec<Elem>>, st: &Vec<Pos>, Ghost(live): Ghost<Set<int>>) -> (next: Vec<
    Vec<Pos>,
>)
    requires
        grounded(rows(rules@), live),
        live_stack(rows(rules@), live, frames(st@)),
        st@.len() > 0,
        !at_rest(rows(rules@), frames(st@)),
    ensures
        stacks_of(next@) == moves(rows(rules@), frames(st@)),
{
    let ghost rs = rows(rules@);
    let ghost fs = frames(st@);
    let n: usize = st.len() - 1;
    let (rid, idx) = st[n];
    proof {
        assert(fs[fs.len() - 1] == (rid as int, idx as int));
        assert(live_frame(rs, live, fs[fs.len() - 1]));
        assert(sound_rule(rs, rid as int));
        assert(shaped(rs[rid as int]));
        assert(rs[rid as int] == rules[rid as int]@);
    }
    let mut next: Vec<Vec<Pos>> = Vec::new();
    match rules[rid][idx] {
        Elem::End => {
            let mut ns = copy_stack(st);
            let _ = ns.pop();
            assert(frames(ns@) =~= fs.drop_last());
            if ns.len() > 0 {
                let m: usize = ns.len() - 1;
                let (prid, pidx) = ns[m];
                proof {
                    assert(fs[m as int] == (prid as int, pidx as int));
                    assert(live_frame(rs, live, fs[m as int]));
                    assert(sound_rule(rs, prid as int));
                    assert(rs[prid as int] == rules[prid as int]@);
                }
                let plen: usize = rules[prid].len();
                assert(pidx < plen);
                let _ = ns.pop();
                ns.push((prid, pidx + 1));
            }
            assert(frames(ns@) =~= bump(fs.drop_last()));
            next.push(ns);
        },
        Elem::Alt => {
            let rule = &rules[rid];
            let mut j: usize = idx;
            while j < rule.len() && rule[j] != Elem::End
                invariant
                    idx <= j < rule.len(),
                    shaped(rule@),
                decreases rule.len() - j,
            {
                j = j + 1;
            }
            let mut ns = copy_stack(st);
            let _ = ns.pop();
            ns.push((rid, j));
            assert(frames(ns@) =~= fs.drop_last().push((rid as int, rs[rid as int].len() - 1)));
            next.push(ns);
        },
        Elem::RuleRef(sub) => {
            proof {
                assert(rs[rid as int][idx as int] == Elem::RuleRef(sub));
                assert(live.contains(sub as int));
                assert(sound_rule(rs, sub as int));
                assert(rs[sub as int] == rules[sub as int]@);
            }
            let sts = alt_starts(&rules[sub]);
            let ghost want = starts(rs[sub as int]);
            let mut k: usize = 0;
            while k < sts.len()
                invariant
                    k <= sts.len(),
                    fs == frames(st@),
                    sts@.map_values(|x: usize| x as int) == want,
                    stacks_of(next@) == calls(fs, sub as int, want).take(k as int),
                decreases sts.len() - k,
            {
                let mut ns = copy_stack(st);
                ns.push((sub, sts[k]));
                proof {
                    assert(want[k as int] == sts[k as int] as int);
                    assert(frames(ns@) =~= fs.push((sub as int, want[k as int])));
                }
                let ghost next0 = stacks_of(next@);
                next.push(ns);
                assert(stacks_of(next@) =~= next0.push(fs.push((sub as int, want[k as int]))));
                k = k + 1;
                assert(stacks_of(next@) =~= calls(fs, sub as int, want).take(k as int));
            }
            assert(calls(fs, sub as int, want).take(k as int) =~= calls(fs, sub as int, want));
        },
        _ => {
            let rlen: usize = rules[rid].len();
            assert(idx < rlen);
            let mut ns = copy_stack(st);
            let _ = ns.pop();
            ns.push((rid, idx + 1));
            assert(frames(ns@) =~= bump(fs));
            next.push(ns);
        },
    }
    assert(stacks_of(next@) =~= moves(rs, fs));
    next
}

/// Follow every stack until it is at rest, and keep each outcome once.
pub(crate) fn advance_stacks(
    rules: &Vec<Vec<Elem>>,
    stacks: Vec<Vec<Pos>>,
    Ghost(live): Ghost<Set<int>>,
) -> (out: Vec<Vec<Pos>>)
    requires
        grounded(rows(rules@), live),
        live_stacks(rows(rules@), live, stacks_of(stacks@)),
    ensures
        stacks_of(out@) == advance(rows(rules@), stacks_of(stacks@)),
        live_stacks(rows(rules@), live, stacks_of(out@)),
        forall|j: int| 0 <= j < out@.len() ==> at_rest(rows(rules@), #[trigger] stacks_of(out@)[j]),
{
    let ghost rs = rows(rules@);
    let ghost d = rs.len();
    let ghost all = trace_all(rs, stacks_of(stacks@), d);
    let ghost mut pre: Seq<Option<Seq<Frame>>> = seq![];
    let mut out: Vec<Vec<Pos>> = Vec::new();
    let mut work = stacks;
    proof {
        assert(stacks_of(out@) =~= settle(pre));
        assert(pre + all =~= all);
    }
    while work.len() > 0
        invariant
            rs == rows(rules@),
            d == rs.len(),
            grounded(rs, live),
            live_stacks(rs, live, stacks_of(work@)),
            live_stacks(rs, live, stacks_of(out@)),
            forall|j: int| 0 <= j < out@.len() ==> at_rest(rs, #[trigger] stacks_of(out@)[j]),
            all == pre + trace_all(rs, stacks_of(work@), d),
            stacks_of(out@) == settle(pre),
        decreases trace_all(rs, stacks_of(work@), d).len(),
    {
        let ghost before = stacks_of(work@);
        let stack = work.pop().unwrap();
        let ghost fs = frames(stack@);
        proof {
            assert(before.last() == fs);
            assert(stacks_of(work@) =~= before.drop_last());
            assert(live_stack(rs, live, before[before.len() - 1]));
            assert forall|j: int| 0 <= j < stacks_of(work@).len() implies live_stack(
                rs,
                live,
                #[trigger] stacks_of(work@)[j],
            ) by {
                assert(stacks_of(work@)[j] == before[j]);
            }
            if fs.len() > 0 {
                lemma_trace_step(rs, live, fs);
            }
        }
        let mut rest: bool = true;
        if stack.len() > 0 {
            let (rid, idx) = stack[stack.len() - 1];
            proof {
                assert(fs[fs.len() - 1] == (rid as int, idx as int));
                assert(live_frame(rs, live, fs[fs.len() - 1]));
                assert(sound_rule(rs, rid as int));
                assert(rs[rid as int] == rules[rid as int]@);
            }
            rest = match rules[rid][idx] {
                Elem::Char(_) => true,
                Elem::CharNot(_) => true,
                _ => false,
            };
        }
        assert(rest == at_rest(rs, fs));
        if rest {
            proof {
                let p1 = pre.push(None);
                let p2 = p1.push(Some(fs));
                assert(p1.drop_last() =~= pre);
                assert(p2.drop_last() =~= p1);
                assert(settle(p1) == settle(pre));
                assert(settle(p2) == if settle(p1).contains(fs) {
                    settle(p1)
                } else {
                    settle(p1).push(fs)
                });
                assert(pre + (seq![None, Some(fs)] + trace_all(rs, before.drop_last(), d)) =~= p2
                    + trace_all(rs, before.drop_last(), d));
                pre = p2;
            }
            if !holds_stack(&out, &stack) {
                let ghost outs0 = stacks_of(out@);
                out.push(stack);
                proof {
                    assert(stacks_of(out@) =~= outs0.push(fs));
                }
            }
        } else {
            let mut next = free_moves(rules, &stack, Ghost(live));
            proof {
                lemma_moves_live(rs, live, fs);
                lemma_trace_all_add(rs, before.drop_last(), moves(rs, fs), d);
                let p1 = pre.push(None);
                assert(p1.drop_last() =~= pre);
                assert(pre + ((seq![None] + trace_all(rs, moves(rs, fs), d)) + trace_all(
                    rs,
                    before.drop_last(),
                    d,
                )) =~= p1 + (trace_all(rs, moves(rs, fs), d) + trace_all(rs, before.drop_last(), d)));
                pre = p1;
            }
            let ghost more = stacks_of(next@);
            work.append(&mut next);
            proof {
                assert(stacks_of(work@) =~= before.drop_last() + more);
                assert forall|j: int| 0 <= j < stacks_of(work@).len() implies live_stack(
                    rs,
                    live,
                    #[trigger] stacks_of(work@)[j],
                ) by {
                    if j < before.len() - 1 {
                        assert(stacks_of(work@)[j] == before[j]);
                    } else {
                        assert(stacks_of(work@)[j] == more[j - (before.len() - 1)]);
                    }
                }
            }
        }
    }
    proof {
        assert(stacks_of(work@) =~= seq![]);
        assert(pre + seq![] =~= pre);
    }
    out
}

/// Whether the character set that begins at `elems[idx]` holds `c`, and where it ends.
fn char_set_matches(elems: &Vec<Elem>, idx: usize, c: u32) -> (r: (bool, usize))
    requires
        idx < elems@.len(),
    ensures
        r.0 == set_has(elems@, idx as int, c),
        (elems@[idx as int] is Char || elems@[idx as int] is CharNot) ==> r.1 == set_end(
            elems@,
            idx as int,
        ),
{
    let (negated, first): (bool, u32) = match elems[idx] {
        Elem::Char(v) => (false, v),
        Elem::CharNot(v) => (true, v),
        _ => {
            return (false, idx);
        },
    };
    let len: usize = elems.len();
    assert(idx < len);
    let mut i: usize = idx + 1;
    let mut matched: bool = false;
    let mut head_upper: Option<u32> = None;
    if i < elems.len() {
        if let Elem::CharRngUpper(hi) = elems[i] {
            head_upper = Some(hi);
        }
    }
    match head_upper {
        Some(hi) => {
            matched = c >= first && c <= hi;
            i = i + 1;
        },
        None => {
            if first != 0 || !negated || i >= elems.len() {
                matched = c == first;
            }
        },
    }
    let ghost tail = i as int;
    let ghost head = matched;
    while i < elems.len()
        invariant
            i <= elems.len(),
            matched || tail_has(elems@, i as int, c) == (head || tail_has(elems@, tail, c)),
            matched ==> (head || tail_has(elems@, tail, c)),
            !matched ==> !head,
            tail_end(elems@, i as int) == tail_end(elems@, tail),
        ensures
            matched == (head || tail_has(elems@, tail, c)),
            i == tail_end(elems@, tail),
        decreases elems.len() - i,
    {
        let lo: u32 = match elems[i] {
            Elem::CharAlt(v) => v,
            _ => {
                break;
            },
        };
        let mut upper: Option<u32> = None;
        if i + 1 < elems.len() {
            if let Elem::CharRngUpper(hi) = elems[i + 1] {
                upper = Some(hi);
            }
        }
        match upper {
            Some(hi) => {
                if c >= lo && c <= hi {
                    matched = true;
                }
                i = i + 2;
            },
            None => {
                if c == lo {
                    matched = true;
                }
                i = i + 1;
            },
        }
    }
    if negated {
        (!matched, i)
    } else {
        (matched, i)
    }
}

/// The state after `c`.
pub(crate) fn step_char(
    rules: &Vec<Vec<Elem>>,
    stacks: &Vec<Vec<Pos>>,
    c: u32,
    Ghost(live): Ghost<Set<int>>,
) -> (out: Vec<Vec<Pos>>)
    requires
        grounded(rows(rules@), live),
        live_stacks(rows(rules@), live, stacks_of(stacks@)),
    ensures
        stacks_of(out@) == step(rows(rules@), stacks_of(stacks@), c),
        live_stacks(rows(rules@), live, stacks_of(out@)),
        forall|j: int| 0 <= j < out@.len() ==> at_rest(rows(rules@), #[trigger] stacks_of(out@)[j]),
{
    let ghost rs = rows(rules@);
    let ghost all = stacks_of(stacks@);
    let mut next: Vec<Vec<Pos>> = Vec::new();
    let mut i: usize = 0;
    assert(stacks_of(next@) =~= shift(rs, all.take(0), c));
    while i < stacks.len()
        invariant
            i <= stacks.len(),
            rs == rows(rules@),
            all == stacks_of(stacks@),
            grounded(rs, live),
            live_stacks(rs, live, all),
            stacks_of(next@) == shift(rs, all.take(i as int), c),
        decreases stacks.len() - i,
    {
        let stack = &stacks[i];
        let ghost fs = frames(stack@);
        proof {
            assert(all[i as int] == fs);
            assert(live_stack(rs, live, all[i as int]));
            assert(all.take(i + 1).drop_last() =~= all.take(i as int));
            assert(all.take(i + 1).last() == fs);
        }
        let ghost next0 = stacks_of(next@);
        if stack.len() > 0 {
            let (rid, idx) = stack[stack.len() - 1];
            proof {
                assert(fs[fs.len() - 1] == (rid as int, idx as int));
                assert(live_frame(rs, live, fs[fs.len() - 1]));
                assert(sound_rule(rs, rid as int));
                assert(rs[rid as int] == rules[rid as int]@);
            }
            let (ok, after) = char_set_matches(&rules[rid], idx, c);
            if ok {
                let mut ns = copy_stack(stack);
                let _ = ns.pop();
                ns.push((rid, after));
                proof {
                    assert(frames(ns@) =~= past(rs, fs));
                }
                next.push(ns);
                assert(stacks_of(next@) =~= next0.push(past(rs, fs)));
            }
        }
        i = i + 1;
    }
    proof {
        assert(all.take(all.len() as int) =~= all);
        lemma_shift_live(rs, live, all, c);
    }
    advance_stacks(rules, next, Ghost(live))
}

proof fn lemma_probe_alts_none(rs: Seq<Seq<Elem>>, s: int, sts: Seq<int>, k: int, d: nat)
    requires
        0 <= k <= sts.len(),
        probe_alts(rs, s, sts.take(k), d) is None,
    ensures
        probe_alts(rs, s, sts, d) is None,
    decreases sts.len() - k,
{
    if k == sts.len() {
        assert(sts.take(k) =~= sts);
    } else {
        assert(sts.take(k + 1).drop_last() =~= sts.take(k));
        lemma_probe_alts_none(rs, s, sts, k + 1, d);
    }
}

/// Whether the machine comes to rest from place `(r, i)`, and whether it can then be
/// at the end of the rule.
fn probe_place(rules: &Vec<Vec<Elem>>, r: usize, i: usize, d: usize) -> (res: Option<bool>)
    ensures
        res == probe(rows(rules@), r as int, i as int, d as nat),
    decreases d, rows(rules@)[r as int].len() - i,
{
    let ghost rs = rows(rules@);
    if r >= rules.len() || i >= rules[r].len() {
        return None;
    }
    match rules[r][i] {
        Elem::End => Some(true),
        Elem::Alt => Some(true),
        Elem::Char(_) => Some(false),
        Elem::CharNot(_) => Some(false),
        Elem::RuleRef(s) => {
            if d == 0 || s >= rules.len() {
                return None;
            }
            let sts = alt_starts(&rules[s]);
            let ghost want = starts(rs[s as int]);
            let mut can_end: bool = false;
            let mut k: usize = 0;
            assert(want.take(0) =~= seq![]);
            while k < sts.len()
                invariant
                    k <= sts.len(),
                    rs == rows(rules@),
                    0 < d,
                    s < rs.len(),
                    r < rs.len(),
                    i < rs[r as int].len(),
                    rs[r as int][i as int] == Elem::RuleRef(s),
                    want == starts(rs[s as int]),
                    sts@.map_values(|x: usize| x as int) == want,
                    probe_alts(rs, s as int, want.take(k as int), (d - 1) as nat) == Some(can_end),
                decreases sts.len() - k,
            {
                proof {
                    assert(want[k as int] == sts[k as int] as int);
                    assert(want.take(k + 1).drop_last() =~= want.take(k as int));
                    assert(want.take(k + 1).last() == sts[k as int] as int);
                    lemma_starts(rs[s as int], rs[s as int].len() as int);
                }
                match probe_place(rules, s, sts[k], d - 1) {
                    None => {
                        proof {
                            lemma_probe_alts_none(rs, s as int, want, k + 1, (d - 1) as nat);
                        }
                        return None;
                    },
                    Some(b) => {
                        can_end = can_end || b;
                    },
                }
                k = k + 1;
            }
            assert(want.take(k as int) =~= want);
            if can_end {
                let len: usize = rules[r].len();
                assert(i < len);
                probe_place(rules, r, i + 1, d)
            } else {
                Some(false)
            }
        },
        _ => {
            let len: usize = rules[r].len();
            assert(i < len);
            probe_place(rules, r, i + 1, d)
        },
    }
}

/// Whether every place of rule `r` is one from which the machine comes to rest.
fn rule_is_sound(rules: &Vec<Vec<Elem>>, r: usize) -> (res: bool)
    ensures
        res == sound_rule(rows(rules@), r as int),
{
    if r >= rules.len() || rules[r].len() == 0 {
        return false;
    }
    let ghost rs = rows(rules@);
    let mut i: usize = 0;
    while i < rules[r].len()
        invariant
            rs == rows(rules@),
            r < rules.len(),
            i <= rules[r as int].len(),
            forall|j: int| 0 <= j < i ==> #[trigger] probe(rs, r as int, j, rs.len()) is Some,
        decreases rules[r as int].len() - i,
    {
        if probe_place(rules, r, i, rules.len()).is_none() {
            assert(!(probe(rs, r as int, i as int, rs.len()) is Some));
            return false;
        }
        i = i + 1;
    }
    true
}

/// Whether the only `End` of a rule is its last element.
fn rule_is_shaped(rule: &Vec<Elem>) -> (res: bool)
    ensures
        res == shaped(rule@),
{
    let n: usize = rule.len();
    if n == 0 || rule[n - 1] != Elem::End {
        return false;
    }
    let mut i: usize = 0;
    while i < n - 1
        invariant
            n == rule.len(),
            n > 0,
            i <= n - 1,
            forall|j: int| 0 <= j < i ==> rule[j] != Elem::End,
        decreases n - 1 - i,
    {
        if rule[i] == Elem::End {
            assert(rule@[i as int] == Elem::End);
            return false;
        }
        i = i + 1;
    }
    true
}

fn rules_are_tidy(rules: &Vec<Vec<Elem>>) -> (res: bool)
    ensures
        res == tidy(rows(rules@)),
{
    let ghost rs = rows(rules@);
    let mut i: usize = 0;
    while i < rules.len()
        invariant
            i <= rules.len(),
            rs == rows(rules@),
            forall|s: int| 0 <= s < i && rs[s].len() > 0 ==> shaped(#[trigger] rs[s]),
        decreases rules.len() - i,
    {
        assert(rs[i as int] == rules[i as int]@);
        if rules[i].len() > 0 && !rule_is_shaped(&rules[i]) {
            assert(!shaped(rs[i as int]));
            return false;
        }
        i = i + 1;
    }
    true
}

/// How many entries of `m` are not set.
pub open spec fn unset(m: Seq<bool>) -> nat
    decreases m.len(),
{
    if m.len() == 0 {
        0
    } else {
        unset(m.drop_last()) + if m.last() {
            0nat
        } else {
            1nat
        }
    }
}

proof fn lemma_unset_update(m: Seq<bool>, i: int)
    requires
        0 <= i < m.len(),
        !m[i],
    ensures
        unset(m.update(i, true)) + 1 == unset(m),
    decreases m.len(),
{
    let n = m.update(i, true);
    if i == m.len() - 1 {
        assert(n.drop_last() =~= m.drop_last());
    } else {
        assert(n.drop_last() =~= m.drop_last().update(i, true));
        lemma_unset_update(m.drop_last(), i);
    }
}

/// A grammar on which the machine always comes to rest: it is tidy, and the rules that
/// can be reached from `root` are defined and sound.
pub open spec fn sound_from(rs: Seq<Seq<Elem>>, root: int) -> bool {
    tidy(rs) && exists|live: Set<int>| #[trigger] closed_under(rs, live) && live.contains(root)
}

/// Whether the machine always comes to rest on a grammar.
pub(crate) fn check_sound(rules: &Vec<Vec<Elem>>, root: usize) -> (res: bool)
    ensures
        res == sound_from(rows(rules@), root as int),
{
    let ghost rs = rows(rules@);
    if !rules_are_tidy(rules) {
        return false;
    }
    if root >= rules.len() {
        assert forall|live: Set<int>| #[trigger] closed_under(rs, live) implies !live.contains(root as int) by {
            if live.contains(root as int) {
                assert(sound_rule(rs, root as int));
            }
        }
        return false;
    }
    let mut marks: Vec<bool> = Vec::new();
    let mut k: usize = 0;
    while k < rules.len()
        invariant
            k <= rules.len(),
            marks@.len() == k,
            forall|j: int| 0 <= j < k ==> !marks[j],
        decreases rules.len() - k,
    {
        marks.push(false);
        k = k + 1;
    }
    let mut work: Vec<usize> = Vec::new();
    marks.set(root, true);
    work.push(root);
    assert(work@[0] == root);
    while work.len() > 0
        invariant
            rs == rows(rules@),
            tidy(rs),
            root < rs.len(),
            marks@.len() == rs.len(),
            marks[root as int],
            forall|j: int| 0 <= j < work@.len() ==> (#[trigger] work@[j]) < marks@.len() && marks@[work@[j] as int],
            forall|r: int|
                0 <= r < marks@.len() && #[trigger] marks@[r] ==> queued(work@, r) || (sound_rule(
                    rs,
                    r,
                ) && refs_marked(rs, r, rs[r].len() as int, marks@)),
            forall|live: Set<int>, r: int|
                #![trigger closed_under(rs, live), marks@[r]]
                closed_under(rs, live) && live.contains(root as int) && 0 <= r < marks@.len() && marks@[r]
                    ==> live.contains(r),
        decreases unset(marks@), work@.len(),
    {
        let ghost work0 = work@;
        let r = work.pop().unwrap();
        assert(work0[work0.len() - 1] == r);
        if !rule_is_sound(rules, r) {
            assert forall|live: Set<int>| #[trigger] closed_under(rs, live) implies !live.contains(root as int) by {
                if live.contains(root as int) {
                    assert(marks@[r as int]);
                    assert(live.contains(r as int));
                    assert(sound_rule(rs, r as int));
                }
            }
            return false;
        }
        let ghost u0 = unset(marks@);
        let ghost marks0 = marks@;
        let mut i: usize = 0;
        assert(work@ =~= work0.drop_last());
        assert forall|x: int| queued(work0, x) && x != r implies queued(work@, x) by {
            let j = choose|j: int| 0 <= j < work0.len() && work0[j] == x;
            assert(work@[j] == x);
        }
        while i < rules[r].len()
            invariant
                rs == rows(rules@),
                r < rules.len(),
                i <= rules[r as int].len(),
                sound_rule(rs, r as int),
                root < rs.len(),
                marks@.len() == rs.len(),
                marks[root as int],
                marks[r as int],
                unset(marks@) < u0 || (unset(marks@) == u0 && work@.len() < work0.len()),
                forall|j: int| 0 <= j < work@.len() ==> (#[trigger] work@[j]) < marks@.len() && marks@[work@[j] as int],
                forall|q: int|
                    0 <= q < marks@.len() && #[trigger] marks@[q] ==> q == r || queued(work@, q) || (sound_rule(
                        rs,
                        q,
                    ) && refs_marked(rs, q, rs[q].len() as int, marks@)),
                refs_marked(rs, r as int, i as int, marks@),
                forall|live: Set<int>, q: int|
                    #![trigger closed_under(rs, live), marks@[q]]
                    closed_under(rs, live) && live.contains(root as int) && 0 <= q < marks@.len() && marks@[q]
                        ==> live.contains(q),
            decreases rules[r as int].len() - i,
        {
            assert(rs[r as int] == rules[r as int]@);
            assert(probe(rs, r as int, i as int, rs.len()) is Some);
            if let Elem::RuleRef(s) = rules[r][i] {
                assert(s < rs.len());
                if !marks[s] {
                    let ghost m0 = marks@;
                    let ghost w0 = work@;
                    proof {
                        lemma_unset_update(marks@, s as int);
                    }
                    marks.set(s, true);
                    work.push(s);
                    proof {
                        assert(marks@ =~= m0.update(s as int, true));
                        assert(work@[work@.len() - 1] == s);
                        assert forall|x: int| queued(w0, x) implies queued(work@, x) by {
                            let j = choose|j: int| 0 <= j < w0.len() && w0[j] == x;
                            assert(work@[j] == x);
                        }
                        assert forall|q: int| 0 <= q < marks@.len() && #[trigger] marks@[q] implies q == r
                            || queued(work@, q) || (sound_rule(rs, q) && refs_marked(
                            rs,
                            q,
                            rs[q].len() as int,
                            marks@,
                        )) by {
                            if q == s {
                                assert(queued(work@, s as int));
                            } else {
                                assert(m0[q]);
                            }
                        }
                        assert forall|live: Set<int>, q: int|
                            #![trigger closed_under(rs, live), marks@[q]]
                            closed_under(rs, live) && live.contains(root as int) && 0 <= q < marks@.len() && marks@[q] implies live.contains(q) by {
                            if q == s {
                                assert(m0[r as int]);
                                assert(live.contains(r as int));
                                assert(rs[r as int][i as int] == Elem::RuleRef(s));
                            } else {
                                assert(m0[q]);
                            }
                        }
                    }
                }
            }
            i = i + 1;
        }
    }
    proof {
        let live = Set::new(|r: int| 0 <= r < marks@.len() && marks@[r]);
        assert forall|r: int| #[trigger] live.contains(r) implies sound_rule(rs, r) && refs_marked(
            rs,
            r,
            rs[r].len() as int,
            marks@,
        ) by {
            assert(marks@[r]);
            assert(!queued(work@, r));
        }
        assert(closed_under(rs, live));
        assert(live.contains(root as int));
    }
    true
}

/// Whether `r` is in a worklist.
pub open spec fn queued(work: Seq<usize>, r: int) -> bool {
    exists|j: int| 0 <= j < work.len() && #[trigger] work[j] == r
}

/// Whether the rules referred to within the first `n` elements of rule `r` are marked.
pub open spec fn refs_marked(rs: Seq<Seq<Elem>>, r: int, n: int, marks: Seq<bool>) -> bool {
    forall|i: int|
        0 <= i < n ==> match #[trigger] rs[r][i] {
            Elem::RuleRef(s) => s < marks.len() && marks[s as int],
            _ => true,
        }
}

} // verus!
