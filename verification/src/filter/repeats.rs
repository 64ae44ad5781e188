//! What repeated atoms read: so many texts of the atom, one behind the other.
use vstd::prelude::*;
use crate::filter::automaton::{shaped, starts, Elem};
use crate::filter::drafts::unended;
use crate::filter::json_schema::lemma_decimal_digits;
use crate::filter::language::{derives, in_language};
use crate::filter::shapes::{flat, lemma_more, lemma_shaped_push, more, numbered};
use crate::filter::spans::{
    barred, both, flat_all, lemma_reference, lemma_spans_add, rules_read_what_a_row_reads, spans, splits,
};
use crate::filter::syntax::{
    bounds, copies, counted, defined, helper_name, optional, postfix, repeated, rule_ref, with_rule, Draft,
    GrammarError,
};
use crate::text::{decimal, digit, digits_value, index_of, number, skip_white, trim, trim_end,};

verus! {

/// Whether `text` is `parts` in a row, each of them read by the elements of an atom.
pub open spec fn made_of(rs: Seq<Seq<Elem>>, row: Seq<Elem>, parts: Seq<Seq<u32>>, text: Seq<u32>) -> bool {
    &&& forall|i: int| 0 <= i < parts.len() ==> spans(rs, row, #[trigger] parts[i])
    &&& parts.flatten() == text
}

/// Whether `text` is `k` texts of an atom in a row.
pub open spec fn is_times(rs: Seq<Seq<Elem>>, row: Seq<Elem>, k: nat, text: Seq<u32>) -> bool {
    exists|parts: Seq<Seq<u32>>| parts.len() == k && #[trigger] made_of(rs, row, parts, text)
}

/// Whether the first `j` of `text` are one text of an atom, and the others `k` of them.
pub open spec fn one_more(rs: Seq<Seq<Elem>>, row: Seq<Elem>, k: nat, text: Seq<u32>, j: int) -> bool {
    0 <= j <= text.len() && spans(rs, row, text.take(j)) && is_times(rs, row, k, text.skip(j))
}

/// Whether the first `j` of `text` are `k` texts of an atom, and the others one.
pub open spec fn one_behind(rs: Seq<Seq<Elem>>, row: Seq<Elem>, k: nat, text: Seq<u32>, j: int) -> bool {
    0 <= j <= text.len() && is_times(rs, row, k, text.take(j)) && spans(rs, row, text.skip(j))
}

proof fn lemma_none(rs: Seq<Seq<Elem>>, row: Seq<Elem>, text: Seq<u32>)
    ensures
        is_times(rs, row, 0, text) <==> text.len() == 0,
{
    let none: Seq<Seq<u32>> = seq![];
    if text.len() == 0 {
        assert(none.flatten() =~= text);
        assert(made_of(rs, row, none, text));
    }
    if is_times(rs, row, 0, text) {
        let parts = choose|parts: Seq<Seq<u32>>| parts.len() == 0 && #[trigger] made_of(rs, row, parts, text);
        assert(parts.flatten().len() == 0);
    }
}

proof fn lemma_first(rs: Seq<Seq<Elem>>, row: Seq<Elem>, k: nat, text: Seq<u32>)
    ensures
        is_times(rs, row, k + 1, text) <==> exists|j: int| #[trigger] one_more(rs, row, k, text, j),
{
    if is_times(rs, row, k + 1, text) {
        let parts = choose|parts: Seq<Seq<u32>>| parts.len() == k + 1 && #[trigger] made_of(rs, row, parts, text);
        let rest = parts.drop_first();
        let j = parts[0].len() as int;
        assert(text == parts[0] + rest.flatten());
        assert(text.take(j) =~= parts[0]);
        assert(text.skip(j) =~= rest.flatten());
        assert forall|i: int| 0 <= i < rest.len() implies spans(rs, row, #[trigger] rest[i]) by {
            assert(rest[i] == parts[i + 1]);
        }
        assert(made_of(rs, row, rest, text.skip(j)));
        assert(one_more(rs, row, k, text, j));
    }
    if exists|j: int| #[trigger] one_more(rs, row, k, text, j) {
        let j = choose|j: int| #[trigger] one_more(rs, row, k, text, j);
        let rest = choose|parts: Seq<Seq<u32>>| parts.len() == k && #[trigger] made_of(rs, row, parts, text.skip(j));
        let parts = seq![text.take(j)] + rest;
        assert(parts.drop_first() =~= rest);
        assert(parts.flatten() =~= text) by {
            assert(text.take(j) + text.skip(j) =~= text);
        }
        assert forall|i: int| 0 <= i < parts.len() implies spans(rs, row, #[trigger] parts[i]) by {
            if i > 0 {
                assert(parts[i] == rest[i - 1]);
            }
        }
        assert(made_of(rs, row, parts, text));
    }
}

proof fn lemma_last(rs: Seq<Seq<Elem>>, row: Seq<Elem>, k: nat, text: Seq<u32>)
    ensures
        is_times(rs, row, k + 1, text) <==> exists|j: int| #[trigger] one_behind(rs, row, k, text, j),
{
    if is_times(rs, row, k + 1, text) {
        let parts = choose|parts: Seq<Seq<u32>>| parts.len() == k + 1 && #[trigger] made_of(rs, row, parts, text);
        let front = parts.drop_last();
        let z = parts.last();
        assert(parts[k as int] == z);
        parts.lemma_flatten_and_flatten_alt_are_equivalent();
        front.lemma_flatten_and_flatten_alt_are_equivalent();
        let j = front.flatten().len() as int;
        assert(text == front.flatten() + z);
        assert(text.take(j) =~= front.flatten());
        assert(text.skip(j) =~= z);
        assert forall|i: int| 0 <= i < front.len() implies spans(rs, row, #[trigger] front[i]) by {
            assert(front[i] == parts[i]);
        }
        assert(made_of(rs, row, front, text.take(j)));
        assert(one_behind(rs, row, k, text, j));
    }
    if exists|j: int| #[trigger] one_behind(rs, row, k, text, j) {
        let j = choose|j: int| #[trigger] one_behind(rs, row, k, text, j);
        let front = choose|parts: Seq<Seq<u32>>| parts.len() == k && #[trigger] made_of(rs, row, parts, text.take(j));
        let parts = front.push(text.skip(j));
        assert(parts.drop_last() =~= front);
        parts.lemma_flatten_and_flatten_alt_are_equivalent();
        front.lemma_flatten_and_flatten_alt_are_equivalent();
        assert(parts.flatten() =~= text) by {
            assert(text.take(j) + text.skip(j) =~= text);
        }
        assert forall|i: int| 0 <= i < parts.len() implies spans(rs, row, #[trigger] parts[i]) by {
            if i < k {
                assert(parts[i] == front[i]);
            }
        }
        assert(made_of(rs, row, parts, text));
    }
}

/// One text of an atom is one.
proof fn lemma_one(rs: Seq<Seq<Elem>>, row: Seq<Elem>, text: Seq<u32>)
    ensures
        is_times(rs, row, 1, text) <==> spans(rs, row, text),
{
    lemma_first(rs, row, 0, text);
    if spans(rs, row, text) {
        let j = text.len() as int;
        assert(text.take(j) =~= text);
        lemma_none(rs, row, text.skip(j));
        assert(one_more(rs, row, 0, text, j));
    }
    if is_times(rs, row, 1, text) {
        let j = choose|j: int| #[trigger] one_more(rs, row, 0, text, j);
        lemma_none(rs, row, text.skip(j));
        assert(text.take(j) =~= text);
    }
}

/// A rule that is an atom alone reads the atom's texts.
proof fn lemma_sub(rs: Seq<Seq<Elem>>, row: Seq<Elem>, sub: int, text: Seq<u32>)
    requires
        0 <= sub < rs.len(),
        flat(row),
        rs[sub] == row.push(Elem::End),
    ensures
        in_language(rs, sub, text) <==> spans(rs, row, text),
{
    let rows = seq![row];
    assert(barred(rows) =~= row.push(Elem::End));
    rules_read_what_a_row_reads(rs, sub, rows, text);
    if spans(rs, row, text) {
        assert(spans(rs, rows[0], text));
    }
}

/// One reference reads what its rule reads.
pub proof fn lemma_ref(rs: Seq<Seq<Elem>>, id: int, text: Seq<u32>)
    requires
        0 <= id < rs.len() <= usize::MAX,
    ensures
        spans(rs, seq![rule_ref(id)], text) <==> in_language(rs, id, text),
{
    let row = seq![rule_ref(id)];
    assert(row.drop_first() =~= seq![]);
    lemma_reference(rs, row, text);
    if spans(rs, row, text) {
        let k = choose|k: int| #[trigger] splits(rs, id, row.drop_first(), text, k);
        assert(text.take(k) =~= text);
    }
    if in_language(rs, id, text) {
        let k = text.len() as int;
        assert(text.take(k) =~= text);
        assert(splits(rs, id, row.drop_first(), text, k));
    }
}

/// References to an atom's rule read as many of its texts.
proof fn lemma_copies(rs: Seq<Seq<Elem>>, row: Seq<Elem>, sub: int, n: nat, text: Seq<u32>)
    requires
        0 <= sub < rs.len() <= usize::MAX,
        flat(row),
        rs[sub] == row.push(Elem::End),
    ensures
        spans(rs, copies(sub, n), text) <==> is_times(rs, row, n, text),
    decreases n,
{
    let c = copies(sub, n);
    if n == 0 {
        assert(c =~= seq![]);
        lemma_none(rs, row, text);
    } else {
        let m = (n - 1) as nat;
        assert(c.drop_first() =~= copies(sub, m));
        assert(c[0] == rule_ref(sub));
        lemma_reference(rs, c, text);
        lemma_first(rs, row, m, text);
        if spans(rs, c, text) {
            let k = choose|k: int| #[trigger] splits(rs, sub, c.drop_first(), text, k);
            lemma_sub(rs, row, sub, text.take(k));
            lemma_copies(rs, row, sub, m, text.skip(k));
            assert(one_more(rs, row, m, text, k));
        }
        if is_times(rs, row, n, text) {
            let k = choose|j: int| #[trigger] one_more(rs, row, m, text, j);
            lemma_sub(rs, row, sub, text.take(k));
            lemma_copies(rs, row, sub, m, text.skip(k));
            assert(splits(rs, sub, c.drop_first(), text, k));
        }
    }
}

/// An optional rule reads nothing, or a text of the atom.
proof fn lemma_option(rs: Seq<Seq<Elem>>, row: Seq<Elem>, sub: int, id: int, text: Seq<u32>)
    requires
        0 <= sub < rs.len() <= usize::MAX,
        0 <= id < rs.len(),
        flat(row),
        rs[sub] == row.push(Elem::End),
        rs[id] == seq![rule_ref(sub), Elem::Alt, Elem::End],
    ensures
        in_language(rs, id, text) <==> text.len() == 0 || spans(rs, row, text),
{
    let none: Seq<Elem> = seq![];
    let one = seq![rule_ref(sub)];
    let rows = seq![one, none];
    assert(rows.drop_first() =~= seq![none]);
    assert(barred(rows.drop_first()) =~= seq![Elem::End]);
    assert(barred(rows) =~= rs[id]);
    assert(flat_all(rows));
    rules_read_what_a_row_reads(rs, id, rows, text);
    lemma_ref(rs, sub, text);
    lemma_sub(rs, row, sub, text);
    if text.len() == 0 {
        assert(spans(rs, rows[1], text));
    }
    if spans(rs, row, text) {
        assert(spans(rs, rows[0], text));
    }
}

/// How a derivation of a rule that repeats an atom unfolds.
proof fn lemma_star_unfolds(rs: Seq<Seq<Elem>>, row: Seq<Elem>, sub: int, id: int, i: int, text: Seq<u32>, n: nat)
    requires
        0 <= sub < rs.len() <= usize::MAX,
        0 <= id < rs.len(),
        flat(row),
        rs[sub] == row.push(Elem::End),
        rs[id] == seq![rule_ref(sub), rule_ref(id), Elem::Alt, Elem::End],
        i == 0 || i == 3,
        derives(rs, id, i, text, n),
    ensures
        exists|k: nat| #[trigger] is_times(rs, row, k, text),
    decreases n,
{
    if i == 3 {
        lemma_none(rs, row, text);
        assert(is_times(rs, row, 0, text));
    } else {
        let sa = starts(rs[sub]);
        let n1 = (n - 1) as nat;
        assert(rs[id][0] == rule_ref(sub));
        let (k, a) = choose|k: int, a: int|
            #![trigger text.take(k), sa[a]]
            0 <= k <= text.len() && 0 <= a < sa.len() && derives(rs, sub, sa[a], text.take(k), n1) && derives(
                rs,
                id,
                1,
                text.skip(k),
                n1,
            );
        assert(in_language(rs, sub, text.take(k)));
        lemma_sub(rs, row, sub, text.take(k));
        let rest = text.skip(k);
        let sb = starts(rs[id]);
        let n2 = (n - 2) as nat;
        assert(rs[id][1] == rule_ref(id));
        let (j, b) = choose|j: int, b: int|
            #![trigger rest.take(j), sb[b]]
            0 <= j <= rest.len() && 0 <= b < sb.len() && derives(rs, id, sb[b], rest.take(j), n2) && derives(
                rs,
                id,
                2,
                rest.skip(j),
                n2,
            );
        assert(rs[id][2] == Elem::Alt);
        assert(rest.skip(j).len() == 0);
        assert(rest.take(j) =~= rest);
        crate::filter::constants::lemma_starts(rs[id], 4);
        let q = sb[b];
        assert(q == 0 || rs[id][q - 1] == Elem::Alt);
        assert(q == 0 || q == 3);
        lemma_star_unfolds(rs, row, sub, id, q, rest, n2);
        let m = choose|m: nat| #[trigger] is_times(rs, row, m, rest);
        assert(one_more(rs, row, m, text, k));
        lemma_first(rs, row, m, text);
        assert(is_times(rs, row, m + 1, text));
    }
}

proof fn lemma_star_reads(rs: Seq<Seq<Elem>>, row: Seq<Elem>, sub: int, id: int, text: Seq<u32>, k: nat)
    requires
        0 <= sub < rs.len() <= usize::MAX,
        0 <= id < rs.len(),
        flat(row),
        rs[sub] == row.push(Elem::End),
        rs[id] == seq![rule_ref(sub), rule_ref(id), Elem::Alt, Elem::End],
        is_times(rs, row, k, text),
    ensures
        in_language(rs, id, text),
    decreases k,
{
    let none: Seq<Elem> = seq![];
    let two = seq![rule_ref(sub), rule_ref(id)];
    let rows = seq![two, none];
    assert(rows.drop_first() =~= seq![none]);
    assert(barred(rows.drop_first()) =~= seq![Elem::End]);
    assert(barred(rows) =~= rs[id]);
    assert(flat_all(rows));
    rules_read_what_a_row_reads(rs, id, rows, text);
    if k == 0 {
        lemma_none(rs, row, text);
        assert(spans(rs, rows[1], text));
    } else {
        let m = (k - 1) as nat;
        lemma_first(rs, row, m, text);
        let j = choose|j: int| #[trigger] one_more(rs, row, m, text, j);
        lemma_star_reads(rs, row, sub, id, text.skip(j), m);
        lemma_sub(rs, row, sub, text.take(j));
        lemma_ref(rs, id, text.skip(j));
        assert(two.drop_first() =~= seq![rule_ref(id)]);
        lemma_reference(rs, two, text);
        assert(splits(rs, sub, two.drop_first(), text, j));
        assert(spans(rs, rows[0], text));
    }
}

/// A rule that repeats an atom reads any number of its texts.
proof fn lemma_star(rs: Seq<Seq<Elem>>, row: Seq<Elem>, sub: int, id: int, text: Seq<u32>)
    requires
        0 <= sub < rs.len() <= usize::MAX,
        0 <= id < rs.len(),
        flat(row),
        rs[sub] == row.push(Elem::End),
        rs[id] == seq![rule_ref(sub), rule_ref(id), Elem::Alt, Elem::End],
    ensures
        in_language(rs, id, text) <==> exists|k: nat| #[trigger] is_times(rs, row, k, text),
{
    if in_language(rs, id, text) {
        let (a, n) = choose|a: int, n: nat|
            0 <= a < starts(rs[id]).len() && #[trigger] derives(rs, id, starts(rs[id])[a], text, n);
        crate::filter::constants::lemma_starts(rs[id], 4);
        let q = starts(rs[id])[a];
        assert(q == 0 || rs[id][q - 1] == Elem::Alt);
        assert(rs[id][0] != Elem::Alt && rs[id][1] != Elem::Alt && rs[id][3] != Elem::Alt);
        assert(q == 0 || q == 3);
        lemma_star_unfolds(rs, row, sub, id, q, text, n);
    }
    if exists|k: nat| #[trigger] is_times(rs, row, k, text) {
        let k = choose|k: nat| #[trigger] is_times(rs, row, k, text);
        lemma_star_reads(rs, row, sub, id, text, k);
    }
}

/// Whether rules hold what a draft added to another one.
pub open spec fn keeps_new(rs: Seq<Seq<Elem>>, d: Draft, e: Draft) -> bool {
    &&& d.rules.len() <= e.rules.len() <= rs.len() <= usize::MAX
    &&& forall|i: int| d.rules.len() <= i < e.rules.len() ==> #[trigger] rs[i] == e.rules[i]
}

/// How often an atom may stand for a mark behind it.
pub open spec fn may_repeat(op: char, k: nat) -> bool {
    ||| op == '*'
    ||| op == '+' && k >= 1
    ||| op == '?' && k <= 1
}

/// What a marked atom becomes, in rules that keep what the draft adds.
proof fn lemma_repeated(d: Draft, all: Seq<Seq<char>>, row: Seq<Elem>, op: char, rs: Seq<Seq<Elem>>)
    requires
        numbered(d, all),
        flat(row),
        op == '*' || op == '+' || op == '?',
        keeps_new(rs, d, repeated(d, row, op).0),
    ensures
        ({
            let (e, id) = repeated(d, row, op);
            let n = d.rules.len() as int;
            &&& id == n + 1
            &&& e.rules.len() == if op == '+' {
                n + 3
            } else {
                n + 2
            }
            &&& rs[n] == row.push(Elem::End)
            &&& op == '?' ==> rs[id] == seq![rule_ref(n), Elem::Alt, Elem::End]
            &&& op == '*' ==> rs[id] == seq![rule_ref(n), rule_ref(id), Elem::Alt, Elem::End]
            &&& op == '+' ==> rs[id] == seq![rule_ref(n), rule_ref(n + 2), Elem::End] && rs[n + 2] == seq![
                rule_ref(n),
                rule_ref(n + 2),
                Elem::Alt,
                Elem::End,
            ]
            &&& numbered(e, all)
        }),
{
    let sub = row.push(Elem::End);
    assert(unended(row));
    lemma_shaped_push(row);
    let n = d.rules.len() as int;
    lemma_more(d, all, 'r', sub);
    let d1 = more(d, 'r', sub);
    let (e, id) = repeated(d, row, op);
    if op == '?' {
        lemma_more(d1, all, 'r', seq![rule_ref(n), Elem::Alt, Elem::End]);
    } else if op == '*' {
        lemma_more(d1, all, 'r', seq![rule_ref(n), rule_ref(n + 1), Elem::Alt, Elem::End]);
    } else {
        let plus = seq![rule_ref(n), rule_ref(n + 2), Elem::End];
        let star = seq![rule_ref(n), rule_ref(n + 2), Elem::Alt, Elem::End];
        lemma_more(d1, all, 'r', seq![]);
        let d2 = more(d1, 'r', seq![]);
        lemma_more(d2, all, 's', star);
        lemma_more(d1, all, 'r', plus);
        let e1 = more(d1, 'r', plus);
        assert(helper_name('s', e1) == helper_name('s', d2));
        lemma_more(e1, all, 's', star);
        let z = more(e1, 's', star);
        assert(defined(more(d2, 's', star), n + 1, plus).rules =~= z.rules);
        assert(e == z);
    }
    assert(rs[n] == e.rules[n]);
    assert(rs[n + 1] == e.rules[n + 1]);
    if op == '+' {
        assert(rs[n + 2] == e.rules[n + 2]);
    }
}

/// The rule of a marked atom reads so many texts of the atom as the mark allows: any number for
/// a star, at least one for a plus, at most one for a question mark.
pub proof fn marks_say_how_often(
    d: Draft,
    all: Seq<Seq<char>>,
    row: Seq<Elem>,
    s: Seq<char>,
    p: int,
    rs: Seq<Seq<Elem>>,
    text: Seq<u32>,
)
    requires
        numbered(d, all),
        flat(row),
        0 <= p < s.len(),
        s[p] == '*' || s[p] == '+' || s[p] == '?',
        postfix(d, row, s, p) matches Ok((e, _, _)) ==> keeps_new(rs, d, e),
    ensures
        postfix(d, row, s, p) matches Ok((e, out, q)) && q == p + 1 && out.len() == 1 && (out[0] matches Elem::RuleRef(id)
            && d.rules.len() <= id < e.rules.len() && (in_language(rs, id as int, text) <==> exists|k: nat|
            may_repeat(s[p], k) && #[trigger] is_times(rs, row, k, text))),
{
    let op = s[p];
    let (e, id) = repeated(d, row, op);
    assert(postfix(d, row, s, p) == Ok::<(Draft, Seq<Elem>, int), GrammarError>((e, seq![rule_ref(id)], p + 1)));
    lemma_repeated(d, all, row, op, rs);
    lemma_marked(rs, row, d.rules.len() as int, op, text);
}

proof fn lemma_marked(rs: Seq<Seq<Elem>>, row: Seq<Elem>, n: int, op: char, text: Seq<u32>)
    requires
        0 <= n,
        n + 1 < rs.len() <= usize::MAX,
        flat(row),
        op == '*' || op == '+' || op == '?',
        rs[n] == row.push(Elem::End),
        op == '?' ==> rs[n + 1] == seq![rule_ref(n), Elem::Alt, Elem::End],
        op == '*' ==> rs[n + 1] == seq![rule_ref(n), rule_ref(n + 1), Elem::Alt, Elem::End],
        op == '+' ==> n + 2 < rs.len() && rs[n + 1] == seq![rule_ref(n), rule_ref(n + 2), Elem::End] && rs[n + 2] == seq![
            rule_ref(n),
            rule_ref(n + 2),
            Elem::Alt,
            Elem::End,
        ],
    ensures
        in_language(rs, n + 1, text) <==> exists|k: nat| may_repeat(op, k) && #[trigger] is_times(rs, row, k, text),
{
    let id = n + 1;
    if op == '?' {
        lemma_option(rs, row, n, id, text);
        lemma_none(rs, row, text);
        lemma_one(rs, row, text);
        if in_language(rs, id, text) {
            if text.len() == 0 {
                assert(may_repeat(op, 0) && is_times(rs, row, 0, text));
            } else {
                assert(may_repeat(op, 1) && is_times(rs, row, 1, text));
            }
        }
    } else if op == '*' {
        lemma_star(rs, row, n, id, text);
    } else {
        let two = seq![rule_ref(n), rule_ref(n + 2)];
        let rows = seq![two];
        assert(barred(rows) =~= rs[id]);
        assert(flat_all(rows));
        rules_read_what_a_row_reads(rs, id, rows, text);
        assert(two.drop_first() =~= seq![rule_ref(n + 2)]);
        lemma_reference(rs, two, text);
        if in_language(rs, id, text) {
            assert(spans(rs, two, text));
            let j = choose|j: int| #[trigger] splits(rs, n, two.drop_first(), text, j);
            lemma_sub(rs, row, n, text.take(j));
            lemma_ref(rs, n + 2, text.skip(j));
            lemma_star(rs, row, n, n + 2, text.skip(j));
            let k = choose|k: nat| #[trigger] is_times(rs, row, k, text.skip(j));
            assert(one_more(rs, row, k, text, j));
            lemma_first(rs, row, k, text);
            assert(may_repeat(op, k + 1) && is_times(rs, row, k + 1, text));
        }
        if exists|k: nat| may_repeat(op, k) && #[trigger] is_times(rs, row, k, text) {
            let k = choose|k: nat| may_repeat(op, k) && #[trigger] is_times(rs, row, k, text);
            let m = (k - 1) as nat;
            lemma_first(rs, row, m, text);
            let j = choose|j: int| #[trigger] one_more(rs, row, m, text, j);
            lemma_sub(rs, row, n, text.take(j));
            lemma_star(rs, row, n, n + 2, text.skip(j));
            lemma_ref(rs, n + 2, text.skip(j));
            assert(splits(rs, n, two.drop_first(), text, j));
            assert(spans(rs, rows[0], text));
        }
    }
}

/// What a row of optional rules becomes.
proof fn lemma_optional(d: Draft, all: Seq<Seq<char>>, sub: int, m: nat, n: nat)
    requires
        numbered(d, all),
    ensures
        ({
            let (e, out) = optional(d, copies(sub, m), sub, n);
            &&& numbered(e, all)
            &&& e.rules.len() == d.rules.len() + n
            &&& forall|i: int| 0 <= i < d.rules.len() ==> #[trigger] e.rules[i] == d.rules[i]
            &&& forall|i: int|
                d.rules.len() <= i < e.rules.len() ==> #[trigger] e.rules[i] == seq![rule_ref(sub), Elem::Alt, Elem::End]
            &&& out == copies(sub, m) + Seq::new(n, |i: int| rule_ref(d.rules.len() + i))
        }),
    decreases n,
{
    let front = copies(sub, m);
    if n == 0 {
        assert(front + Seq::new(n, |i: int| rule_ref(d.rules.len() + i)) =~= front);
    } else {
        let opt = seq![rule_ref(sub), Elem::Alt, Elem::End];
        lemma_optional(d, all, sub, m, (n - 1) as nat);
        let (d1, out1) = optional(d, front, sub, (n - 1) as nat);
        assert(shaped(opt));
        lemma_more(d1, all, 'r', opt);
        let (e, out) = optional(d, front, sub, n);
        assert(e == more(d1, 'r', opt));
        assert(out =~= front + Seq::new(n, |i: int| rule_ref(d.rules.len() + i)));
    }
}

/// Optional references behind others read up to so many more texts.
proof fn lemma_options_read(rs: Seq<Seq<Elem>>, row: Seq<Elem>, sub: int, lo: int, m: nat, n: nat, text: Seq<u32>)
    requires
        0 <= sub < rs.len() <= usize::MAX,
        0 <= lo,
        lo + n <= rs.len(),
        flat(row),
        rs[sub] == row.push(Elem::End),
        forall|i: int| lo <= i < lo + n ==> #[trigger] rs[i] == seq![rule_ref(sub), Elem::Alt, Elem::End],
    ensures
        spans(rs, copies(sub, m) + Seq::new(n, |i: int| rule_ref(lo + i)), text) <==> exists|k: nat|
            m <= k <= m + n && #[trigger] is_times(rs, row, k, text),
    decreases n,
{
    let front = copies(sub, m);
    let all = front + Seq::new(n, |i: int| rule_ref(lo + i));
    if n == 0 {
        assert(all =~= front);
        lemma_copies(rs, row, sub, m, text);
    } else {
        let w = (n - 1) as nat;
        let a = front + Seq::new(w, |i: int| rule_ref(lo + i));
        let b = seq![rule_ref(lo + w)];
        assert(all =~= a + b);
        assert(flat(a) && flat(b));
        lemma_spans_add(rs, a, b, text);
        assert(rs[lo + w] == seq![rule_ref(sub), Elem::Alt, Elem::End]);
        if spans(rs, all, text) {
            let j = choose|j: int| #[trigger] both(rs, a, b, text, j);
            lemma_options_read(rs, row, sub, lo, m, w, text.take(j));
            let k = choose|k: nat| m <= k <= m + w && #[trigger] is_times(rs, row, k, text.take(j));
            lemma_ref(rs, lo + w, text.skip(j));
            lemma_option(rs, row, sub, lo + w, text.skip(j));
            if spans(rs, row, text.skip(j)) {
                assert(one_behind(rs, row, k, text, j));
                lemma_last(rs, row, k, text);
                assert(is_times(rs, row, k + 1, text));
            } else {
                assert(text.take(j) =~= text);
            }
        }
        if exists|k: nat| m <= k <= m + n && #[trigger] is_times(rs, row, k, text) {
            let k = choose|k: nat| m <= k <= m + n && #[trigger] is_times(rs, row, k, text);
            if k <= m + w {
                let j = text.len() as int;
                assert(text.take(j) =~= text);
                lemma_options_read(rs, row, sub, lo, m, w, text);
                lemma_ref(rs, lo + w, text.skip(j));
                lemma_option(rs, row, sub, lo + w, text.skip(j));
                assert(both(rs, a, b, text, j));
            } else {
                let k1 = (k - 1) as nat;
                lemma_last(rs, row, k1, text);
                let j = choose|j: int| #[trigger] one_behind(rs, row, k1, text, j);
                lemma_options_read(rs, row, sub, lo, m, w, text.take(j));
                assert(m <= k1 <= m + w && is_times(rs, row, k1, text.take(j)));
                lemma_ref(rs, lo + w, text.skip(j));
                lemma_option(rs, row, sub, lo + w, text.skip(j));
                assert(both(rs, a, b, text, j));
            }
        }
    }
}

/// So many texts, and then any number of them, are at least so many.
proof fn lemma_at_least(rs: Seq<Seq<Elem>>, row: Seq<Elem>, m: nat, text: Seq<u32>)
    ensures
        (exists|k: nat| m <= k && #[trigger] is_times(rs, row, k, text)) <==> exists|j: int, i: nat|
            0 <= j <= text.len() && is_times(rs, row, m, text.take(j)) && #[trigger] is_times(rs, row, i, text.skip(j)),
    decreases m,
{
    if m == 0 {
        if exists|k: nat| m <= k && #[trigger] is_times(rs, row, k, text) {
            let k = choose|k: nat| m <= k && #[trigger] is_times(rs, row, k, text);
            lemma_none(rs, row, text.take(0));
            assert(text.skip(0) =~= text);
            assert(is_times(rs, row, k, text.skip(0)));
        }
        if exists|j: int, i: nat|
            0 <= j <= text.len() && is_times(rs, row, m, text.take(j)) && #[trigger] is_times(rs, row, i, text.skip(j)) {
            let (j, i) = choose|j: int, i: nat|
                0 <= j <= text.len() && is_times(rs, row, m, text.take(j)) && #[trigger] is_times(rs, row, i, text.skip(j));
            lemma_none(rs, row, text.take(j));
            assert(text.skip(j) =~= text);
        }
    } else {
        let w = (m - 1) as nat;
        if exists|k: nat| m <= k && #[trigger] is_times(rs, row, k, text) {
            let k = choose|k: nat| m <= k && #[trigger] is_times(rs, row, k, text);
            let k1 = (k - 1) as nat;
            lemma_first(rs, row, k1, text);
            let a = choose|j: int| #[trigger] one_more(rs, row, k1, text, j);
            let rest = text.skip(a);
            lemma_at_least(rs, row, w, rest);
            assert(w <= k1 && is_times(rs, row, k1, rest));
            let (j, i) = choose|j: int, i: nat|
                0 <= j <= rest.len() && is_times(rs, row, w, rest.take(j)) && #[trigger] is_times(rs, row, i, rest.skip(j));
            let t = text.take(a + j);
            assert(t.take(a) =~= text.take(a));
            assert(t.skip(a) =~= rest.take(j));
            assert(text.skip(a + j) =~= rest.skip(j));
            assert(one_more(rs, row, w, t, a));
            lemma_first(rs, row, w, t);
            assert(is_times(rs, row, i, text.skip(a + j)));
        }
        if exists|j: int, i: nat|
            0 <= j <= text.len() && is_times(rs, row, m, text.take(j)) && #[trigger] is_times(rs, row, i, text.skip(j)) {
            let (j, i) = choose|j: int, i: nat|
                0 <= j <= text.len() && is_times(rs, row, m, text.take(j)) && #[trigger] is_times(rs, row, i, text.skip(j));
            let t = text.take(j);
            lemma_first(rs, row, w, t);
            let a = choose|x: int| #[trigger] one_more(rs, row, w, t, x);
            let rest = text.skip(a);
            assert(t.take(a) =~= text.take(a));
            assert(t.skip(a) =~= rest.take(j - a));
            assert(text.skip(j) =~= rest.skip(j - a));
            assert(is_times(rs, row, i, rest.skip(j - a)));
            lemma_at_least(rs, row, w, rest);
            let k = choose|k: nat| w <= k && #[trigger] is_times(rs, row, k, rest);
            assert(one_more(rs, row, k, text, a));
            lemma_first(rs, row, k, text);
            assert(is_times(rs, row, k + 1, text));
        }
    }
}

/// What the rule of an atom with bounds reads.
pub proof fn lemma_counted_reads(
    d: Draft,
    all: Seq<Seq<char>>,
    row: Seq<Elem>,
    spec: Seq<char>,
    min: nat,
    max: Option<nat>,
    rs: Seq<Seq<Elem>>,
    text: Seq<u32>,
)
    requires
        numbered(d, all),
        flat(row),
        bounds(spec) == Ok::<(nat, Option<nat>), GrammarError>((min, max)),
        counted(d, row, spec) matches Ok((e, _)) ==> keeps_new(rs, d, e),
    ensures
        counted(d, row, spec) matches Ok((e, id)) && d.rules.len() <= id < e.rules.len() && (in_language(rs, id, text)
            <==> exists|k: nat|
            min <= k && (max is Some ==> k <= min || k <= max->0) && #[trigger] is_times(rs, row, k, text)),
{
    let sub = d.rules.len() as int;
    let one = row.push(Elem::End);
    assert(unended(row));
    lemma_shaped_push(row);
    lemma_more(d, all, 'r', one);
    let d1 = more(d, 'r', one);
    assert(with_rule(d, one) == (d1, sub));
    let (e, id) = counted(d, row, spec)->Ok_0;
    match max {
        Some(mx) => {
            let n = if mx > min {
                (mx - min) as nat
            } else {
                0
            };
            lemma_optional(d1, all, sub, min, n);
            let (d2, out) = optional(d1, copies(sub, min), sub, n);
            let last = out.push(Elem::End);
            assert(unended(out));
            lemma_shaped_push(out);
            lemma_more(d2, all, 'r', last);
            assert(e == more(d2, 'r', last));
            assert(id == d2.rules.len());
            assert(rs[sub] == e.rules[sub] && e.rules[sub] == d2.rules[sub] && d2.rules[sub] == d1.rules[sub]);
            assert(rs[id] == e.rules[id]);
            assert forall|i: int| d1.rules.len() <= i < d1.rules.len() + n implies #[trigger] rs[i] == seq![
                rule_ref(sub),
                Elem::Alt,
                Elem::End,
            ] by {
                assert(rs[i] == e.rules[i]);
                assert(e.rules[i] == d2.rules[i]);
            }
            lemma_options_read(rs, row, sub, d1.rules.len() as int, min, n, text);
            assert(flat(out));
            lemma_sub(rs, out, id, text);
        },
        None => {
            let d2 = repeated(d1, row, '*').0;
            let star = repeated(d1, row, '*').1;
            let out = copies(sub, min).push(rule_ref(star));
            let last = out.push(Elem::End);
            assert(unended(out));
            lemma_shaped_push(out);
            lemma_two_rules(d1, all, row);
            lemma_more(d2, all, 'r', last);
            assert(e == more(d2, 'r', last));
            assert(id == d2.rules.len());
            assert(rs[sub] == e.rules[sub] && e.rules[sub] == d2.rules[sub] && d2.rules[sub] == d1.rules[sub]);
            assert(rs[id] == e.rules[id]);
            assert(keeps_new(rs, d1, d2)) by {
                assert forall|i: int| d1.rules.len() <= i < d2.rules.len() implies #[trigger] rs[i] == d2.rules[i] by {
                    assert(rs[i] == e.rules[i]);
                }
            }
            lemma_repeated(d1, all, row, '*', rs);
            lemma_row_then_star(rs, row, sub, sub + 1, star, min, text);
            assert(out =~= copies(sub, min) + seq![rule_ref(star)]);
            assert(flat(out));
            lemma_sub(rs, out, id, text);
        },
    }
}

proof fn lemma_two_rules(d: Draft, all: Seq<Seq<char>>, row: Seq<Elem>)
    requires
        numbered(d, all),
        flat(row),
    ensures
        ({
            let (e, id) = repeated(d, row, '*');
            &&& numbered(e, all)
            &&& id == d.rules.len() + 1
            &&& e.rules.len() == d.rules.len() + 2
            &&& forall|i: int| 0 <= i < d.rules.len() ==> #[trigger] e.rules[i] == d.rules[i]
        }),
{
    let sub = row.push(Elem::End);
    assert(unended(row));
    lemma_shaped_push(row);
    let n = d.rules.len() as int;
    lemma_more(d, all, 'r', sub);
    let d1 = more(d, 'r', sub);
    lemma_more(d1, all, 'r', seq![rule_ref(n), rule_ref(n + 1), Elem::Alt, Elem::End]);
}

proof fn lemma_row_then_star(
    rs: Seq<Seq<Elem>>,
    row: Seq<Elem>,
    sub: int,
    sub2: int,
    star: int,
    min: nat,
    text: Seq<u32>,
)
    requires
        0 <= sub < rs.len() <= usize::MAX,
        0 <= sub2 < rs.len(),
        0 <= star < rs.len(),
        flat(row),
        rs[sub] == row.push(Elem::End),
        rs[sub2] == row.push(Elem::End),
        rs[star] == seq![rule_ref(sub2), rule_ref(star), Elem::Alt, Elem::End],
    ensures
        spans(rs, copies(sub, min) + seq![rule_ref(star)], text) <==> exists|k: nat|
            min <= k && #[trigger] is_times(rs, row, k, text),
{
    let a = copies(sub, min);
    let b = seq![rule_ref(star)];
    assert(flat(a) && flat(b));
    lemma_spans_add(rs, a, b, text);
    lemma_at_least(rs, row, min, text);
    if spans(rs, a + b, text) {
        let j = choose|j: int| #[trigger] both(rs, a, b, text, j);
        lemma_copies(rs, row, sub, min, text.take(j));
        lemma_ref(rs, star, text.skip(j));
        lemma_star(rs, row, sub2, star, text.skip(j));
        let i = choose|i: nat| #[trigger] is_times(rs, row, i, text.skip(j));
        assert(is_times(rs, row, min, text.take(j)));
    }
    if exists|k: nat| min <= k && #[trigger] is_times(rs, row, k, text) {
        let (j, i) = choose|j: int, i: nat|
            0 <= j <= text.len() && is_times(rs, row, min, text.take(j)) && #[trigger] is_times(rs, row, i, text.skip(j));
        lemma_copies(rs, row, sub, min, text.take(j));
        lemma_ref(rs, star, text.skip(j));
        lemma_star(rs, row, sub2, star, text.skip(j));
        assert(both(rs, a, b, text, j));
    }
}

proof fn lemma_digits_value(n: nat)
    ensures
        digits_value(decimal(n), 10) == Some(n),
    decreases n,
{
    let t = decimal(n);
    if n < 10 {
        assert(t.drop_last() =~= Seq::<char>::empty());
        assert(t.last() == digit(n));
        assert(digits_value(t.drop_last(), 10) == Some(0nat));
    } else {
        lemma_digits_value(n / 10);
        assert(t.drop_last() =~= decimal(n / 10));
        assert(t.last() == digit(n % 10));
        assert((n / 10) * 10 + n % 10 == n);
    }
}

/// A numeral stands for its number.
proof fn lemma_numeral(n: nat)
    requires
        n <= u32::MAX,
    ensures
        trim(decimal(n)) == decimal(n),
        number(decimal(n), 10) == Some(n),
{
    let t = decimal(n);
    lemma_decimal_digits(n);
    lemma_digits_value(n);
    assert('0' <= t[0] <= '9');
    assert('0' <= t[t.len() - 1] <= '9');
    assert(trim_end(t) == t);
    assert(skip_white(t, 0) == 0);
    assert(t.skip(0) =~= t);
}

proof fn lemma_index(s: Seq<char>, c: char, i: int, e: int)
    requires
        0 <= i <= e <= s.len(),
        forall|k: int| i <= k < e ==> #[trigger] s[k] != c,
        e < s.len() ==> s[e] == c,
    ensures
        index_of(s, c, i) == e,
    decreases e - i,
{
    if i < e {
        lemma_index(s, c, i + 1, e);
    }
}

/// The text of a bound: a numeral.
pub open spec fn exactly(n: nat) -> Seq<char> {
    decimal(n)
}

/// The text of a lower bound: a numeral and a comma.
pub open spec fn at_least(m: nat) -> Seq<char> {
    decimal(m).push(',')
}

/// The text of two bounds: numerals with a comma between them.
pub open spec fn between(m: nat, n: nat) -> Seq<char> {
    decimal(m).push(',') + decimal(n)
}

pub proof fn lemma_bounds(m: nat, n: nat)
    requires
        m <= u32::MAX,
        n <= u32::MAX,
    ensures
        bounds(exactly(n)) == Ok::<(nat, Option<nat>), GrammarError>((n, Some(n))),
        bounds(at_least(m)) == Ok::<(nat, Option<nat>), GrammarError>((m, None)),
        bounds(between(m, n)) == Ok::<(nat, Option<nat>), GrammarError>((m, Some(n))),
{
    lemma_numeral(m);
    lemma_numeral(n);
    lemma_decimal_digits(m);
    lemma_decimal_digits(n);
    let a = decimal(m);
    let b = decimal(n);
    lemma_index(b, ',', 0, b.len() as int);
    let c = at_least(m);
    let w = a.len() as int;
    assert forall|k: int| 0 <= k < w implies #[trigger] c[k] != ',' by {
        assert(c[k] == a[k]);
    }
    lemma_index(c, ',', 0, w);
    assert(c.take(w) =~= a);
    assert(c.skip(w + 1) =~= Seq::<char>::empty());
    assert(trim_end(Seq::<char>::empty()) == Seq::<char>::empty());
    assert(trim(Seq::<char>::empty()).len() == 0) by {
        assert(skip_white(Seq::<char>::empty(), 0) == 0);
        assert(Seq::<char>::empty().skip(0) =~= Seq::<char>::empty());
    }
    let e = between(m, n);
    assert forall|k: int| 0 <= k < w implies #[trigger] e[k] != ',' by {
        assert(e[k] == a[k]);
    }
    assert(e[w] == ',');
    lemma_index(e, ',', 0, w);
    assert(e.take(w) =~= a);
    assert(e.skip(w + 1) =~= b);
}

/// Whether `{`, a text of bounds and `}` stand at `p`.
pub open spec fn braces_at(s: Seq<char>, p: int, spec: Seq<char>) -> bool {
    &&& 0 <= p
    &&& p + spec.len() + 2 <= s.len()
    &&& s[p] == '{'
    &&& s.subrange(p + 1, p + 1 + spec.len()) == spec
    &&& s[p + 1 + spec.len()] == '}'
}

/// Where bounds in braces end.
pub proof fn lemma_braces_end(d: Draft, row: Seq<Elem>, s: Seq<char>, p: int, spec: Seq<char>)
    requires
        braces_at(s, p, spec),
        forall|i: int| 0 <= i < spec.len() ==> #[trigger] spec[i] != '}',
        bounds(spec) is Ok,
    ensures
        counted(d, row, spec) is Ok,
        postfix(d, row, s, p) == Ok::<(Draft, Seq<Elem>, int), GrammarError>(
            (
                counted(d, row, spec)->Ok_0.0,
                seq![rule_ref(counted(d, row, spec)->Ok_0.1)],
                p + spec.len() + 2,
            ),
        ),
{
    let z = p + 1 + spec.len();
    assert forall|k: int| p + 1 <= k < z implies #[trigger] s[k] != '}' by {
        assert(spec[k - p - 1] == s.subrange(p + 1, z)[k - p - 1]);
    }
    lemma_index(s, '}', p + 1, z);
}

proof fn lemma_braces(
    d: Draft,
    all: Seq<Seq<char>>,
    row: Seq<Elem>,
    s: Seq<char>,
    p: int,
    spec: Seq<char>,
    min: nat,
    max: Option<nat>,
    rs: Seq<Seq<Elem>>,
    text: Seq<u32>,
)
    requires
        numbered(d, all),
        flat(row),
        braces_at(s, p, spec),
        forall|i: int| 0 <= i < spec.len() ==> #[trigger] spec[i] != '}',
        bounds(spec) == Ok::<(nat, Option<nat>), GrammarError>((min, max)),
        postfix(d, row, s, p) matches Ok((e, _, _)) ==> keeps_new(rs, d, e),
    ensures
        postfix(d, row, s, p) matches Ok((e, out, q)) && q == p + spec.len() + 2 && out.len() == 1 && (
        out[0] matches Elem::RuleRef(id) && d.rules.len() <= id < e.rules.len() && (in_language(rs, id as int, text)
            <==> exists|k: nat|
            min <= k && (max is Some ==> k <= min || k <= max->0) && #[trigger] is_times(rs, row, k, text))),
{
    lemma_braces_end(d, row, s, p, spec);
    lemma_counted_reads(d, all, row, spec, min, max, rs, text);
}

/// The rule of `atom{n}` reads exactly the texts that are `n` texts of the atom in a row.
pub proof fn counts_say_how_often(
    d: Draft,
    all: Seq<Seq<char>>,
    row: Seq<Elem>,
    s: Seq<char>,
    p: int,
    n: nat,
    rs: Seq<Seq<Elem>>,
    text: Seq<u32>,
)
    requires
        numbered(d, all),
        flat(row),
        n <= u32::MAX,
        braces_at(s, p, exactly(n)),
        postfix(d, row, s, p) matches Ok((e, _, _)) ==> keeps_new(rs, d, e),
    ensures
        postfix(d, row, s, p) matches Ok((e, out, q)) && q == p + exactly(n).len() + 2 && out.len() == 1 && (
        out[0] matches Elem::RuleRef(id) && d.rules.len() <= id < e.rules.len() && (in_language(rs, id as int, text)
            <==> is_times(rs, row, n, text))),
{
    lemma_bounds(n, n);
    lemma_decimal_digits(n);
    lemma_braces(d, all, row, s, p, exactly(n), n, Some(n), rs, text);
}

/// The rule of `atom{m,n}` reads exactly the texts that are `m` to `n` texts of the atom in a
/// row; where `n` is below `m`, those that are `m`.
pub proof fn ranges_say_how_often(
    d: Draft,
    all: Seq<Seq<char>>,
    row: Seq<Elem>,
    s: Seq<char>,
    p: int,
    m: nat,
    n: nat,
    rs: Seq<Seq<Elem>>,
    text: Seq<u32>,
)
    requires
        numbered(d, all),
        flat(row),
        m <= u32::MAX,
        n <= u32::MAX,
        braces_at(s, p, between(m, n)),
        postfix(d, row, s, p) matches Ok((e, _, _)) ==> keeps_new(rs, d, e),
    ensures
        postfix(d, row, s, p) matches Ok((e, out, q)) && q == p + between(m, n).len() + 2 && out.len() == 1 && (
        out[0] matches Elem::RuleRef(id) && d.rules.len() <= id < e.rules.len() && (in_language(rs, id as int, text)
            <==> exists|k: nat| m <= k && (k <= n || k == m) && #[trigger] is_times(rs, row, k, text))),
{
    lemma_bounds(m, n);
    lemma_decimal_digits(m);
    lemma_decimal_digits(n);
    assert forall|i: int| 0 <= i < between(m, n).len() implies #[trigger] between(m, n)[i] != '}' by {
        if i < decimal(m).len() {
            assert(between(m, n)[i] == decimal(m)[i]);
        } else if i > decimal(m).len() {
            assert(between(m, n)[i] == decimal(n)[i - decimal(m).len() - 1]);
        }
    }
    lemma_braces(d, all, row, s, p, between(m, n), m, Some(n), rs, text);
}

/// The rule of `atom{m,}` reads exactly the texts that are at least `m` texts of the atom in a
/// row.
pub proof fn lower_bounds_say_how_often(
    d: Draft,
    all: Seq<Seq<char>>,
    row: Seq<Elem>,
    s: Seq<char>,
    p: int,
    m: nat,
    rs: Seq<Seq<Elem>>,
    text: Seq<u32>,
)
    requires
        numbered(d, all),
        flat(row),
        m <= u32::MAX,
        braces_at(s, p, at_least(m)),
        postfix(d, row, s, p) matches Ok((e, _, _)) ==> keeps_new(rs, d, e),
    ensures
        postfix(d, row, s, p) matches Ok((e, out, q)) && q == p + at_least(m).len() + 2 && out.len() == 1 && (
        out[0] matches Elem::RuleRef(id) && d.rules.len() <= id < e.rules.len() && (in_language(rs, id as int, text)
            <==> exists|k: nat| m <= k && #[trigger] is_times(rs, row, k, text))),
{
    lemma_bounds(m, m);
    lemma_decimal_digits(m);
    assert forall|i: int| 0 <= i < at_least(m).len() implies #[trigger] at_least(m)[i] != '}' by {
        if i < decimal(m).len() {
            assert(at_least(m)[i] == decimal(m)[i]);
        }
    }
    lemma_braces(d, all, row, s, p, at_least(m), m, None, rs, text);
}

} // verus!
