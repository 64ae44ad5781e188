//! Whole grammars of one counted class.
use vstd::prelude::*;
use crate::filter::automaton::Elem;
use crate::filter::classes::{
    class_text, covers, elems_of, lemma_class_atom, lemma_ranges_span, plain, plain_all, range_text, ranges_text,
};
use crate::filter::drafts::{draft_ok, lemma_name_index_stays, lemma_postfix};
use crate::filter::json_schema::{lemma_decimal_digits, rules_text, Row};
use crate::filter::language::in_language;
use crate::filter::reading::{clean, defs_of, lemma_no_comment, written_rules_are_read};
use crate::filter::repeats::{
    at_least, between, braces_at, exactly, is_times, keeps_new, lemma_bounds, lemma_braces_end, lemma_counted_reads,
    lemma_ref, made_of,
};
use crate::filter::shapes::{flat, numbered};
use crate::filter::spans::{barred, rules_read_what_a_row_reads, some_span, spans};
use crate::filter::syntax::{
    alternates, atom, bounds, compiled, counted, defined, grammar_of, interned, member, name_index, named, postfix,
    rule_ref, sequence, Draft, GrammarError,
};
use crate::text::{decimal, skip_white};

verus! {

/// The grammar of a class with a text of bounds in braces behind it.
pub open spec fn counted_grammar(v: Seq<(char, char)>, neg: bool, spec: Seq<char>) -> Seq<char> {
    rules_text(seq![("root"@, counted_body(v, neg, spec))])
}

/// Its rule.
pub open spec fn counted_body(v: Seq<(char, char)>, neg: bool, spec: Seq<char>) -> Seq<char> {
    class_text(v, neg) + seq!['{'] + spec + seq!['}']
}

/// Whether ranges can stand on a line of a grammar as they are.
pub open spec fn on_a_line(v: Seq<(char, char)>) -> bool {
    plain_all(v) && forall|i: int|
        0 <= i < v.len() ==> (#[trigger] v[i]).0 != '\n' && v[i].1 != '\n' && v[i].0 != '#' && v[i].1 != '#'
}

/// Whether every character of a text is one that a class reads.
pub open spec fn all_of_class(v: Seq<(char, char)>, neg: bool, text: Seq<u32>) -> bool {
    forall|i: int| 0 <= i < text.len() ==> covers(v, #[trigger] text[i]) != neg
}

proof fn lemma_ranges_chars(v: Seq<(char, char)>)
    requires
        on_a_line(v),
    ensures
        forall|i: int| 0 <= i < ranges_text(v).len() ==> #[trigger] ranges_text(v)[i] != '#' && ranges_text(v)[i] != '\n',
    decreases v.len(),
{
    if v.len() > 0 {
        let rest = v.drop_first();
        assert forall|i: int| 0 <= i < rest.len() implies plain((#[trigger] rest[i]).0) && plain(rest[i].1) by {
            assert(rest[i] == v[i + 1]);
        }
        assert forall|i: int| 0 <= i < rest.len() implies (#[trigger] rest[i]).0 != '\n' && rest[i].1 != '\n' && rest[i].0
            != '#' && rest[i].1 != '#' by {
            assert(rest[i] == v[i + 1]);
        }
        lemma_ranges_chars(rest);
        let r = range_text(v[0]);
        assert forall|i: int| 0 <= i < ranges_text(v).len() implies #[trigger] ranges_text(v)[i] != '#' && ranges_text(v)[i]
            != '\n' by {
            if i >= r.len() {
                assert(ranges_text(v)[i] == ranges_text(rest)[i - r.len()]);
            } else {
                assert(ranges_text(v)[i] == r[i]);
            }
        }
    }
}

/// So many texts of one character each are a text of so many characters.
proof fn lemma_times_class(rs: Seq<Seq<Elem>>, row: Seq<Elem>, v: Seq<(char, char)>, neg: bool, k: nat, text: Seq<u32>)
    requires
        forall|t: Seq<u32>| #[trigger] spans(rs, row, t) <==> t.len() == 1 && covers(v, t[0]) != neg,
    ensures
        is_times(rs, row, k, text) <==> text.len() == k && all_of_class(v, neg, text),
    decreases k,
{
    if is_times(rs, row, k, text) {
        let ts = choose|ts: Seq<Seq<u32>>| ts.len() == k && #[trigger] made_of(rs, row, ts, text);
        lemma_ones(ts, text);
        assert forall|i: int| 0 <= i < text.len() implies covers(v, #[trigger] text[i]) != neg by {
            assert(spans(rs, row, ts[i]));
        }
    }
    if text.len() == k && all_of_class(v, neg, text) {
        let ts = Seq::new(text.len(), |i: int| seq![text[i]]);
        lemma_spelled_out(text);
        assert forall|i: int| 0 <= i < ts.len() implies spans(rs, row, #[trigger] ts[i]) by {
            assert(covers(v, text[i]) != neg);
            assert(ts[i].len() == 1 && ts[i][0] == text[i]);
        }
        assert(made_of(rs, row, ts, text));
    }
}

proof fn lemma_ones(ts: Seq<Seq<u32>>, text: Seq<u32>)
    requires
        ts.flatten() == text,
        forall|i: int| 0 <= i < ts.len() ==> (#[trigger] ts[i]).len() == 1,
    ensures
        text.len() == ts.len(),
        forall|i: int| 0 <= i < ts.len() ==> text[i] == (#[trigger] ts[i])[0],
    decreases ts.len(),
{
    if ts.len() > 0 {
        let rest = ts.drop_first();
        assert forall|i: int| 0 <= i < rest.len() implies (#[trigger] rest[i]).len() == 1 by {
            assert(rest[i] == ts[i + 1]);
        }
        lemma_ones(rest, rest.flatten());
        assert(ts[0].len() == 1);
        assert(text == ts[0] + rest.flatten());
        assert forall|i: int| 0 <= i < ts.len() implies text[i] == (#[trigger] ts[i])[0] by {
            if i > 0 {
                assert(rest[i - 1] == ts[i]);
                assert(rest.flatten()[i - 1] == rest[i - 1][0]);
            }
        }
    }
}

proof fn lemma_spelled_out(text: Seq<u32>)
    ensures
        Seq::new(text.len(), |i: int| seq![text[i]]).flatten() == text,
    decreases text.len(),
{
    let ts = Seq::new(text.len(), |i: int| seq![text[i]]);
    if text.len() == 0 {
        assert(ts.flatten() =~= text);
    } else {
        let rest = text.drop_first();
        lemma_spelled_out(rest);
        assert(ts.drop_first() =~= Seq::new(rest.len(), |i: int| seq![rest[i]]));
        assert(ts.flatten() =~= text);
    }
}

proof fn lemma_body(v: Seq<(char, char)>, neg: bool, spec: Seq<char>)
    requires
        on_a_line(v),
        forall|i: int| 0 <= i < spec.len() ==> #[trigger] spec[i] != '#' && spec[i] != '\n',
    ensures
        clean(("root"@, counted_body(v, neg, spec))),
{
    reveal_strlit("root");
    let body = counted_body(v, neg, spec);
    let c = class_text(v, neg);
    lemma_ranges_chars(v);
    assert forall|i: int| 0 <= i < body.len() implies #[trigger] body[i] != '#' && body[i] != '\n' by {
        if i < c.len() {
            assert(body[i] == c[i]);
            let b: int = if neg {
                2
            } else {
                1
            };
            if b <= i < c.len() - 1 {
                assert(c[i] == ranges_text(v)[i - b]);
            }
        } else if c.len() < i < body.len() - 1 {
            assert(body[i] == spec[i - c.len() - 1]);
        }
    }
    lemma_no_comment(body, 0, None);
}

/// What a line that holds one marked class is read as.
proof fn lemma_line(d: Draft, row: Seq<Elem>, f: Draft, out: Seq<Elem>, s: Seq<char>, q: int)
    requires
        1 < q < s.len(),
        s[0] == ' ',
        s[1] == '[',
        s[q] == '{',
        atom(d, s, 1) == Ok::<(Draft, Seq<Elem>, int), GrammarError>((d, row, q)),
        postfix(d, row, s, q) == Ok::<(Draft, Seq<Elem>, int), GrammarError>((f, out, s.len() as int)),
    ensures
        alternates(d, seq![], s, 0, false) == Ok::<(Draft, Seq<Elem>, int), GrammarError>(
            (f, out.push(Elem::End), s.len() as int),
        ),
{
    let e: Seq<Elem> = seq![];
    let t = s.len() as int;
    assert(skip_white(s, 1) == 1);
    assert(skip_white(s, 0) == 1);
    assert(skip_white(s, q) == q);
    assert(skip_white(s, t) == t);
    assert(e + out =~= out);
    assert(sequence(f, e + out, s, t, false) == Ok::<(Draft, Seq<Elem>, int), GrammarError>((f, out, t)));
    assert(sequence(d, e, s, 0, false) == sequence(f, e + out, s, t, false));
}

/// What a grammar of one rule compiles to.
proof fn lemma_one_rule(body: Seq<char>, f: Draft, row: Seq<Elem>, t: int)
    requires
        clean(("root"@, body)),
        name_index(f.names, "root"@) == 0,
        alternates(Draft { names: seq!["root"@], rules: seq![seq![]] }, seq![], seq![' '] + body, 0, false) == Ok::<
            (Draft, Seq<Elem>, int),
            GrammarError,
        >((f, row, t)),
    ensures
        grammar_of(rules_text(seq![("root"@, body)])) == Ok::<(Seq<Seq<Elem>>, int), GrammarError>(
            (f.rules.update(0, row), 0),
        ),
{
    reveal_strlit("root");
    let rules: Seq<Row> = seq![("root"@, body)];
    let d = Draft { names: seq!["root"@], rules: seq![seq![]] };
    assert(clean(rules[0]));
    written_rules_are_read(rules);
    let defs = defs_of(rules);
    assert(defs[0] == ("root"@, seq![' '] + body));
    let start = named(defs, 0);
    assert(name_index(start.names, "root"@) == -1);
    assert(named(defs, 1) == interned(start, defs[0].0).0);
    assert(named(defs, 1).names =~= d.names);
    assert(named(defs, 1).rules =~= d.rules);
    assert(compiled(defs, 0) == Ok::<Draft, GrammarError>(d));
    assert(d.names.drop_last() =~= start.names);
    assert(name_index(d.names, "root"@) == 0);
    assert(interned(d, "root"@) == (d, 0int));
    assert(compiled(defs, 1) == Ok::<Draft, GrammarError>(defined(f, 0, row)));
    assert("root"@ =~= seq!['r', 'o', 'o', 't']);
}

proof fn lemma_elems_flat(v: Seq<(char, char)>, first: bool, neg: bool)
    ensures
        flat(elems_of(v, first, neg)),
    decreases v.len(),
{
    if v.len() > 0 {
        let a = member(first, neg, v[0].0 as u32, v[0].1 as u32);
        let rest = elems_of(v.drop_first(), false, neg);
        lemma_elems_flat(v.drop_first(), false, neg);
        assert forall|i: int| 0 <= i < (a + rest).len() implies #[trigger] (a + rest)[i] != Elem::End && (a + rest)[i]
            != Elem::Alt by {
            if i >= a.len() {
                assert((a + rest)[i] == rest[i - a.len()]);
            }
        }
    }
}

/// The draft of a grammar of one rule before that is compiled.
spec fn one_name() -> Draft {
    Draft { names: seq!["root"@], rules: seq![seq![]] }
}

/// Where the parts of the line of a counted class stand.
proof fn lemma_parts(v: Seq<(char, char)>, neg: bool, spec: Seq<char>)
    ensures
        ({
            let s = seq![' '] + counted_body(v, neg, spec);
            let q: int = 1 + class_text(v, neg).len() as int;
            &&& 1 < q
            &&& s.len() == q + spec.len() + 2
            &&& s[0] == ' '
            &&& s[1] == '['
            &&& s.subrange(1, q) == class_text(v, neg)
            &&& braces_at(s, q, spec)
        }),
{
    let s = seq![' '] + counted_body(v, neg, spec);
    let c = class_text(v, neg);
    let q: int = 1 + c.len() as int;
    assert(s.subrange(1, q) =~= c);
    assert(s.subrange(q + 1, q + 1 + spec.len()) =~= spec);
}

proof fn lemma_one_name()
    ensures
        draft_ok(one_name()),
        numbered(one_name(), seq!["root"@]),
        name_index(one_name().names, "root"@) == 0,
{
    reveal_strlit("root");
    let d = one_name();
    assert(name_index(d.names.drop_last(), "root"@) == -1);
}

/// What a grammar of a counted class compiles to.
proof fn lemma_compiles(v: Seq<(char, char)>, neg: bool, spec: Seq<char>)
    requires
        v.len() > 0,
        on_a_line(v),
        forall|i: int| 0 <= i < spec.len() ==> #[trigger] spec[i] != '#' && spec[i] != '\n' && spec[i] != '}',
        bounds(spec) is Ok,
    ensures
        counted(one_name(), elems_of(v, true, neg), spec) is Ok,
        ({
            let (f, id) = counted(one_name(), elems_of(v, true, neg), spec)->Ok_0;
            &&& f.rules.len() > 0
            &&& grammar_of(counted_grammar(v, neg, spec)) == Ok::<(Seq<Seq<Elem>>, int), GrammarError>(
                (f.rules.update(0, seq![rule_ref(id)].push(Elem::End)), 0),
            )
        }),
{
    let d = one_name();
    let body = counted_body(v, neg, spec);
    let s = seq![' '] + body;
    let q: int = 1 + class_text(v, neg).len() as int;
    let row = elems_of(v, true, neg);
    lemma_body(v, neg, spec);
    lemma_parts(v, neg, spec);
    lemma_class_atom(d, s, 1, v, neg);
    lemma_braces_end(d, row, s, q, spec);
    let (f, id) = counted(d, row, spec)->Ok_0;
    let out = seq![rule_ref(id)];
    lemma_line(d, row, f, out, s, q);
    lemma_elems_flat(v, true, neg);
    lemma_one_name();
    lemma_postfix(d, row, s, q);
    lemma_name_index_stays(d.names, f.names, "root"@);
    lemma_one_rule(body, f, out.push(Elem::End), s.len() as int);
}

/// A rule that is one reference reads what the rule it refers to reads.
proof fn lemma_through(rs: Seq<Seq<Elem>>, id: int, text: Seq<u32>)
    requires
        0 < rs.len() <= usize::MAX,
        0 <= id < rs.len(),
        rs[0] == seq![rule_ref(id)].push(Elem::End),
    ensures
        in_language(rs, 0, text) <==> in_language(rs, id, text),
{
    let out = seq![rule_ref(id)];
    let rows = seq![out];
    assert(barred(rows) == out.push(Elem::End));
    assert(flat(rows[0]));
    rules_read_what_a_row_reads(rs, 0, rows, text);
    lemma_ref(rs, id, text);
    assert(some_span(rs, rows, text) <==> spans(rs, out, text)) by {
        assert(rows[0] == out);
    }
}

/// What a grammar of a counted class reads.
proof fn lemma_counted_grammar(
    v: Seq<(char, char)>,
    neg: bool,
    spec: Seq<char>,
    min: nat,
    max: Option<nat>,
    text: Seq<u32>,
)
    requires
        v.len() > 0,
        on_a_line(v),
        forall|i: int| 0 <= i < spec.len() ==> #[trigger] spec[i] != '#' && spec[i] != '\n' && spec[i] != '}',
        bounds(spec) == Ok::<(nat, Option<nat>), GrammarError>((min, max)),
        grammar_of(counted_grammar(v, neg, spec)) matches Ok((rs, _)) ==> rs.len() <= usize::MAX,
    ensures
        grammar_of(counted_grammar(v, neg, spec)) matches Ok((rs, root)) && (in_language(rs, root, text) <==> text.len()
            >= min && (max is Some ==> text.len() <= min || text.len() <= max->0) && all_of_class(v, neg, text)),
{
    let d = one_name();
    let s = seq![' '] + counted_body(v, neg, spec);
    let q: int = 1 + class_text(v, neg).len() as int;
    let row = elems_of(v, true, neg);
    lemma_compiles(v, neg, spec);
    lemma_parts(v, neg, spec);
    lemma_one_name();
    lemma_elems_flat(v, true, neg);
    lemma_braces_end(d, row, s, q, spec);
    let (f, id) = counted(d, row, spec)->Ok_0;
    let rs = f.rules.update(0, seq![rule_ref(id)].push(Elem::End));
    lemma_postfix(d, row, s, q);
    assert(keeps_new(rs, d, f));
    lemma_counted_reads(d, seq!["root"@], row, spec, min, max, rs, text);
    lemma_through(rs, id, text);
    assert forall|t: Seq<u32>| #[trigger] spans(rs, row, t) <==> t.len() == 1 && covers(v, t[0]) != neg by {
        lemma_ranges_span(v, neg, rs, t);
    }
    assert forall|k: nat| #[trigger] is_times(rs, row, k, text) <==> text.len() == k && all_of_class(v, neg, text) by {
        lemma_times_class(rs, row, v, neg, k, text);
    }
    assert(is_times(rs, row, text.len(), text) <==> all_of_class(v, neg, text));
}

proof fn lemma_bound_chars(m: nat, n: nat)
    ensures
        forall|i: int| 0 <= i < exactly(n).len() ==> '0' <= #[trigger] exactly(n)[i] <= '9',
        forall|i: int| 0 <= i < at_least(m).len() ==> '0' <= #[trigger] at_least(m)[i] <= '9' || at_least(m)[i] == ',',
        forall|i: int|
            0 <= i < between(m, n).len() ==> '0' <= #[trigger] between(m, n)[i] <= '9' || between(m, n)[i] == ',',
{
    lemma_decimal_digits(m);
    lemma_decimal_digits(n);
    let a = at_least(m);
    assert forall|i: int| 0 <= i < a.len() implies '0' <= #[trigger] a[i] <= '9' || a[i] == ',' by {
        if i < decimal(m).len() {
            assert(a[i] == decimal(m)[i]);
        }
    }
    let b = between(m, n);
    assert forall|i: int| 0 <= i < b.len() implies '0' <= #[trigger] b[i] <= '9' || b[i] == ',' by {
        if i < a.len() {
            assert(b[i] == a[i]);
        } else {
            assert(b[i] == decimal(n)[i - a.len()]);
        }
    }
}

/// The grammar `root ::= [..]{n}` reads exactly the texts of `n` characters of the class.
pub proof fn counted_classes_read_so_many(v: Seq<(char, char)>, neg: bool, n: nat, text: Seq<u32>)
    requires
        v.len() > 0,
        on_a_line(v),
        n <= u32::MAX,
        grammar_of(counted_grammar(v, neg, exactly(n))) matches Ok((rs, _)) ==> rs.len() <= usize::MAX,
    ensures
        grammar_of(counted_grammar(v, neg, exactly(n))) matches Ok((rs, root)) && (in_language(rs, root, text)
            <==> text.len() == n && all_of_class(v, neg, text)),
{
    lemma_bound_chars(n, n);
    lemma_bounds(n, n);
    lemma_counted_grammar(v, neg, exactly(n), n, Some(n), text);
}

/// The grammar `root ::= [..]{m,}` reads exactly the texts of at least `m` characters of the
/// class.
pub proof fn classes_with_a_lower_bound_read_that_many(v: Seq<(char, char)>, neg: bool, m: nat, text: Seq<u32>)
    requires
        v.len() > 0,
        on_a_line(v),
        m <= u32::MAX,
        grammar_of(counted_grammar(v, neg, at_least(m))) matches Ok((rs, _)) ==> rs.len() <= usize::MAX,
    ensures
        grammar_of(counted_grammar(v, neg, at_least(m))) matches Ok((rs, root)) && (in_language(rs, root, text)
            <==> text.len() >= m && all_of_class(v, neg, text)),
{
    lemma_bound_chars(m, m);
    lemma_bounds(m, m);
    lemma_counted_grammar(v, neg, at_least(m), m, None, text);
}

/// The grammar `root ::= [..]{m,n}` reads exactly the texts of `m` to `n` characters of the
/// class.
pub proof fn classes_with_two_bounds_read_between_them(
    v: Seq<(char, char)>,
    neg: bool,
    m: nat,
    n: nat,
    text: Seq<u32>,
)
    requires
        v.len() > 0,
        on_a_line(v),
        m <= n <= u32::MAX,
        grammar_of(counted_grammar(v, neg, between(m, n))) matches Ok((rs, _)) ==> rs.len() <= usize::MAX,
    ensures
        grammar_of(counted_grammar(v, neg, between(m, n))) matches Ok((rs, root)) && (in_language(rs, root, text)
            <==> m <= text.len() <= n && all_of_class(v, neg, text)),
{
    lemma_bound_chars(m, n);
    lemma_bounds(m, n);
    lemma_counted_grammar(v, neg, between(m, n), m, Some(n), text);
}

} // verus!
