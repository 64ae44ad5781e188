//! What the grammar of a schema for constants accepts.
use vstd::prelude::*;
use crate::filter::automaton::{
    closed_under, probe, probe_alts, set_end, set_has, sound_from, sound_rule, starts, starts_upto, tidy, Elem,
};
use crate::filter::drafts::{
    alternates_end, lemma_alternates, lemma_compiled, lemma_compiled_step, lemma_name_index, lemma_name_index_stays,
    lemma_named,
};
use crate::filter::json_schema::{
    chars_elems, fresh, joined, lemma_codes_differ, lemma_lit_char_read, lemma_lit_chars_split, lemma_literal_at,
    lit_char, lit_chars, lit_of, lits, prelude, rules_text, schema_text, sketch_of, Row, Sketch,
};
use crate::filter::language::{codes, derives, in_language};
use crate::filter::prelude::preludes_are_well_formed;
use crate::filter::reading::{clean, defs_of, lemma_comment_shift, written_rules_are_read};
use crate::filter::syntax::{
    alternates, atom, comment_index, compiled, defined, grammar_of, name_end, name_index, named, postfix, rule_ref,
    sequence, Draft, GrammarError,
};
use crate::json::{compact_text, list_at, member, text_at, Json};
use crate::text::{decimal, skip_white};

verus! {

/// Texts as literals with bars between them, each behind a space.
pub open spec fn choices_text(ts: Seq<Seq<char>>) -> Seq<char>
    decreases ts.len(),
{
    if ts.len() == 0 {
        seq![]
    } else if ts.len() == 1 {
        seq![' '] + lit_of(ts[0])
    } else {
        seq![' '] + lit_of(ts[0]) + seq![' ', '|'] + choices_text(ts.drop_first())
    }
}

/// The rule that reads one of some texts.
pub open spec fn choices_row(ts: Seq<Seq<char>>) -> Seq<Elem>
    decreases ts.len(),
{
    if ts.len() == 0 {
        seq![]
    } else if ts.len() == 1 {
        chars_elems(ts[0]).push(Elem::End)
    } else {
        chars_elems(ts[0]).push(Elem::Alt) + choices_row(ts.drop_first())
    }
}

/// The literals of texts.
pub open spec fn lits_of(ts: Seq<Seq<char>>) -> Seq<Seq<char>> {
    Seq::new(ts.len(), |i: int| lit_of(ts[i]))
}

/// The first of some texts, and the others behind it.
pub proof fn lemma_joined_first(parts: Seq<Seq<char>>, sep: Seq<char>)
    requires
        parts.len() > 1,
    ensures
        joined(parts, sep) == parts[0] + sep + joined(parts.drop_first(), sep),
    decreases parts.len(),
{
    let rest = parts.drop_first();
    if parts.len() == 2 {
        assert(parts.drop_last()[0] == parts[0]);
        assert(rest[0] == parts[1]);
        assert(joined(rest, sep) == parts[1]);
        assert(joined(parts.drop_last(), sep) == parts[0]);
    } else {
        lemma_joined_first(parts.drop_last(), sep);
        assert(parts.drop_last().drop_first() =~= rest.drop_last());
        assert(joined(parts, sep) =~= parts[0] + sep + joined(rest, sep));
    }
}

proof fn lemma_choices_text(ts: Seq<Seq<char>>)
    requires
        ts.len() > 0,
    ensures
        choices_text(ts) == seq![' '] + joined(lits_of(ts), " | "@),
    decreases ts.len(),
{
    reveal_strlit(" | ");
    if ts.len() > 1 {
        let rest = ts.drop_first();
        lemma_choices_text(rest);
        lemma_joined_first(lits_of(ts), " | "@);
        assert(lits_of(ts).drop_first() =~= lits_of(rest));
        assert(choices_text(ts) =~= seq![' '] + joined(lits_of(ts), " | "@));
    }
}

/// Nothing inside a literal begins a comment, and none stands on a line end.
pub proof fn lemma_lit_chars_inside(s: Seq<char>, p: int, t: Seq<char>, k: int)
    requires
        0 <= k <= t.len(),
        0 <= p,
        p + lit_chars(t).len() < s.len(),
        s.subrange(p, p + lit_chars(t).len()) == lit_chars(t),
        s[(p + lit_chars(t).len()) as int] == '"',
    ensures
        comment_index(s, (p + lit_chars(t.take(k)).len()) as int, Some('"')) == comment_index(
            s,
            p + lit_chars(t).len() + 1,
            None,
        ),
        forall|i: int| lit_chars(t.take(k)).len() <= i < lit_chars(t).len() ==> #[trigger] lit_chars(t)[i] != '\n',
    decreases t.len() - k,
{
    let q = p + lit_chars(t.take(k)).len();
    if k == t.len() {
        assert(t.take(k) =~= t);
    } else {
        let c = t[k];
        let w = lit_char(c);
        lemma_lit_chars_split(t, k);
        lemma_lit_chars_split(t, k + 1);
        assert(t.take(k + 1).drop_last() =~= t.take(k));
        assert(t.take(k + 1).last() == c);
        assert(lit_chars(t.take(k + 1)) == lit_chars(t.take(k)) + w);
        let all = s.subrange(p, p + lit_chars(t).len());
        assert(s.subrange(q, q + w.len()) =~= w) by {
            assert forall|i: int| 0 <= i < w.len() implies s[q + i] == #[trigger] w[i] by {
                assert(all[q - p + i] == s[q + i]);
            }
        }
        lemma_lit_char_read(s, q, c);
        lemma_lit_chars_inside(s, p, t, k + 1);
        assert forall|i: int| lit_chars(t.take(k)).len() <= i < lit_chars(t).len() implies #[trigger] lit_chars(t)[i]
            != '\n' by {
            assert(all[i] == s[p + i]);
        }
    }
}

/// How choices begin.
proof fn lemma_choices_head(ts: Seq<Seq<char>>)
    requires
        ts.len() > 0,
    ensures
        choices_text(ts).len() >= 1 + lit_of(ts[0]).len(),
        choices_text(ts)[0] == ' ',
        forall|i: int| 0 <= i < lit_of(ts[0]).len() ==> choices_text(ts)[1 + i] == #[trigger] lit_of(ts[0])[i],
        ts.len() == 1 ==> choices_text(ts).len() == 1 + lit_of(ts[0]).len(),
        ts.len() > 1 ==> {
            let n = 1 + lit_of(ts[0]).len() as int;
            let rest = choices_text(ts.drop_first());
            &&& choices_text(ts).len() == n + 2 + rest.len()
            &&& choices_text(ts)[n] == ' '
            &&& choices_text(ts)[n + 1] == '|'
            &&& forall|i: int| 0 <= i < rest.len() ==> choices_text(ts)[n + 2 + i] == #[trigger] rest[i]
        },
{
}

/// Choices stand on one line and have no comment.
proof fn lemma_choices_line(s: Seq<char>, p: int, ts: Seq<Seq<char>>)
    requires
        ts.len() > 0,
        0 <= p <= s.len(),
        s.skip(p) == choices_text(ts),
    ensures
        comment_index(s, p, None) == s.len(),
        forall|i: int| p <= i < s.len() ==> #[trigger] s[i] != '\n',
        s.len() > p,
        s.last() == '"',
    decreases ts.len(),
{
    let w = s.skip(p);
    let t = ts[0];
    let l = lit_of(t);
    let q = p + 1 + l.len();
    lemma_choices_head(ts);
    assert forall|i: int| 0 <= i < w.len() implies s[p + i] == #[trigger] w[i] by {}
    assert forall|i: int| 0 <= i < l.len() implies s[p + 1 + i] == #[trigger] l[i] by {
        assert(w[1 + i] == l[i]);
    }
    assert(s[p] == w[0]);
    assert(s[p + 1] == l[0]);
    assert(s[q - 1] == l[l.len() - 1]);
    assert(s.subrange(p + 2, p + 2 + lit_chars(t).len()) =~= lit_chars(t)) by {
        assert forall|i: int| 0 <= i < lit_chars(t).len() implies s[p + 2 + i] == #[trigger] lit_chars(t)[i] by {
            assert(l[1 + i] == lit_chars(t)[i]);
            assert(s[p + 1 + (1 + i)] == l[1 + i]);
        }
    }
    lemma_lit_chars_inside(s, p + 2, t, 0);
    assert(t.take(0) =~= seq![]);
    assert(lit_chars(t.take(0)) =~= seq![]);
    assert(comment_index(s, p, None) == comment_index(s, p + 1, None));
    assert(comment_index(s, p + 1, None) == comment_index(s, p + 2, Some('"')));
    assert(comment_index(s, p, None) == comment_index(s, q, None));
    assert forall|i: int| p <= i < q implies #[trigger] s[i] != '\n' by {
        if p + 2 <= i < q - 1 {
            assert(lit_chars(t)[i - p - 2] == s.subrange(p + 2, p + 2 + lit_chars(t).len())[i - p - 2]);
        }
    }
    if ts.len() > 1 {
        assert(s[q] == w[1 + l.len() as int]);
        assert(s[q + 1] == w[2 + l.len() as int]);
        assert(s.skip(q + 2) =~= choices_text(ts.drop_first())) by {
            let rest = choices_text(ts.drop_first());
            assert forall|i: int| 0 <= i < rest.len() implies s[q + 2 + i] == #[trigger] rest[i] by {
                assert(w[1 + l.len() as int + 2 + i] == rest[i]);
            }
        }
        lemma_choices_line(s, q + 2, ts.drop_first());
        assert(comment_index(s, q, None) == comment_index(s, q + 1, None));
        assert(comment_index(s, q + 1, None) == comment_index(s, q + 2, None));
    }
}

/// A literal behind a space is an alternate, up to the end of the text or the next bar.
proof fn lemma_choice_sequence(d: Draft, s: Seq<char>, p: int, t: Seq<char>, e: int)
    requires
        0 <= p,
        p + 1 + lit_of(t).len() <= s.len(),
        s[p] == ' ',
        s.subrange(p + 1, p + 1 + lit_of(t).len()) == lit_of(t),
        if p + 1 + lit_of(t).len() == s.len() {
            e == s.len()
        } else {
            e == p + 2 + lit_of(t).len() && e < s.len() && s[e - 1] == ' ' && s[e] == '|'
        },
    ensures
        sequence(d, seq![], s, p, false) == Ok::<(Draft, Seq<Elem>, int), GrammarError>((d, chars_elems(t), e)),
        skip_white(s, e) == e,
{
    let q = p + 1 + lit_of(t).len();
    let row = chars_elems(t);
    lemma_literal_at(s, p + 1, t);
    assert(skip_white(s, p + 1) == p + 1);
    assert(skip_white(s, p) == p + 1);
    assert(Seq::<Elem>::empty() + row =~= row);
    assert(atom(d, s, p + 1) == Ok::<(Draft, Seq<Elem>, int), GrammarError>((d, row, q)));
    assert(skip_white(s, e) == e);
    assert(skip_white(s, q) == e);
    assert(postfix(d, row, s, e) == Ok::<(Draft, Seq<Elem>, int), GrammarError>((d, row, e)));
    assert(sequence(d, row, s, e, false) == Ok::<(Draft, Seq<Elem>, int), GrammarError>((d, row, e)));
}

/// Choices compile to the rule that reads one of the texts.
proof fn lemma_choices_compile(d: Draft, out: Seq<Elem>, s: Seq<char>, p: int, ts: Seq<Seq<char>>)
    requires
        ts.len() > 0,
        0 <= p <= s.len(),
        s.skip(p) == choices_text(ts),
    ensures
        alternates(d, out, s, p, false) == Ok::<(Draft, Seq<Elem>, int), GrammarError>(
            (d, out + choices_row(ts), s.len() as int),
        ),
    decreases ts.len(),
{
    let w = s.skip(p);
    let t = ts[0];
    let l = lit_of(t);
    let q = p + 1 + l.len();
    let row = chars_elems(t);
    lemma_choices_head(ts);
    assert forall|i: int| 0 <= i < w.len() implies s[p + i] == #[trigger] w[i] by {}
    assert(s.subrange(p + 1, p + 1 + l.len()) =~= l) by {
        assert forall|i: int| 0 <= i < l.len() implies s[p + 1 + i] == #[trigger] l[i] by {
            assert(w[1 + i] == l[i]);
        }
    }
    assert(s[p] == w[0]);
    if ts.len() == 1 {
        lemma_choice_sequence(d, s, p, t, q);
        assert((out + row).push(Elem::End) =~= out + choices_row(ts));
    } else {
        let rest = choices_text(ts.drop_first());
        assert(s[q] == w[1 + l.len() as int]);
        assert(s[q + 1] == w[2 + l.len() as int]);
        lemma_choice_sequence(d, s, p, t, q + 1);
        assert(s.skip(q + 2) =~= rest) by {
            assert forall|i: int| 0 <= i < rest.len() implies s[q + 2 + i] == #[trigger] rest[i] by {
                assert(w[1 + l.len() as int + 2 + i] == rest[i]);
            }
        }
        lemma_choices_compile(d, (out + row).push(Elem::Alt), s, q + 2, ts.drop_first());
        assert((out + row).push(Elem::Alt) + choices_row(ts.drop_first()) =~= out + choices_row(ts));
    }
}

/// What the rule that reads one of some texts is made of.
proof fn lemma_choices_elems(ts: Seq<Seq<char>>)
    requires
        ts.len() > 0,
    ensures
        choices_row(ts).len() > 0,
        choices_row(ts).last() == Elem::End,
        forall|p: int|
            0 <= p < choices_row(ts).len() ==> (#[trigger] choices_row(ts)[p] is Char || choices_row(ts)[p] is End
                || choices_row(ts)[p] is Alt),
    decreases ts.len(),
{
    if ts.len() > 1 {
        lemma_choices_elems(ts.drop_first());
        let n = ts[0].len() as int + 1;
        let tail = choices_row(ts.drop_first());
        let row = choices_row(ts);
        assert(row.last() == tail.last());
        assert forall|p: int| 0 <= p < row.len() implies (#[trigger] row[p] is Char || row[p] is End || row[p] is Alt) by {
            if p >= n {
                assert(row[p] == tail[p - n]);
            }
        }
    }
}

/// Alternates begin at the start and behind each bar.
pub proof fn lemma_starts(rule: Seq<Elem>, n: int)
    requires
        0 <= n <= rule.len(),
    ensures
        starts_upto(rule, n).len() > 0,
        forall|a: int|
            0 <= a < starts_upto(rule, n).len() ==> {
                let p = #[trigger] starts_upto(rule, n)[a];
                p == 0 || (0 < p <= n && rule[p - 1] == Elem::Alt)
            },
        starts_upto(rule, n).contains(0),
        forall|p: int| 0 < p <= n && rule[p - 1] == Elem::Alt ==> #[trigger] starts_upto(rule, n).contains(p),
    decreases n,
{
    let all = starts_upto(rule, n);
    if n == 0 {
        assert(all[0] == 0);
    } else {
        lemma_starts(rule, n - 1);
        let less = starts_upto(rule, n - 1);
        let z = choose|a: int| 0 <= a < less.len() && less[a] == 0;
        assert(all[z] == 0);
        assert forall|p: int| 0 < p <= n && rule[p - 1] == Elem::Alt implies #[trigger] all.contains(p) by {
            if p == n {
                assert(all[all.len() - 1] == p);
            } else {
                assert(less.contains(p));
                let a = choose|a: int| 0 <= a < less.len() && less[a] == p;
                assert(all[a] == p);
            }
        }
        assert forall|a: int| 0 <= a < all.len() implies {
            let p = #[trigger] all[a];
            p == 0 || (0 < p <= n && rule[p - 1] == Elem::Alt)
        } by {
            if a < less.len() {
                assert(all[a] == less[a]);
            }
        }
    }
}

/// Whether the characters of a text, and then the end of the alternate, stand at `p` of a rule.
spec fn text_at_place(rule: Seq<Elem>, p: int, t: Seq<char>) -> bool {
    &&& 0 <= p
    &&& p + t.len() < rule.len()
    &&& forall|k: int| 0 <= k < t.len() ==> rule[p + k] == Elem::Char(#[trigger] t[k] as u32)
    &&& (rule[p + t.len()] is End || rule[p + t.len()] is Alt)
}

/// Where a text stands in a rule, it is read, and nothing else.
proof fn lemma_text_reads(rs: Seq<Seq<Elem>>, r: int, p: int, t: Seq<char>, text: Seq<u32>, n: nat)
    requires
        0 <= r < rs.len(),
        text_at_place(rs[r], p, t),
    ensures
        derives(rs, r, p, text, n) ==> text == codes(t),
        text == codes(t) && n > text.len() ==> derives(rs, r, p, text, n),
    decreases t.len(),
{
    let row = rs[r];
    if t.len() == 0 {
        assert(codes(t) =~= seq![]);
        assert(row[p] is End || row[p] is Alt);
        if text.len() == 0 {
            assert(text =~= seq![]);
        }
    } else {
        let c = t[0];
        let u = t.drop_first();
        assert(row[p + 0] == Elem::Char(t[0] as u32));
        if u.len() > 0 {
            assert(row[p + 1] == Elem::Char(t[1] as u32));
        }
        assert(set_end(row, p) == p + 1);
        assert(text_at_place(row, p + 1, u)) by {
            assert forall|k: int| 0 <= k < u.len() implies row[p + 1 + k] == Elem::Char(#[trigger] u[k] as u32) by {
                assert(u[k] == t[k + 1]);
            }
        }
        assert(codes(t).drop_first() =~= codes(u));
        if n > 0 {
            lemma_text_reads(rs, r, p + 1, u, text.drop_first(), (n - 1) as nat);
        }
        if derives(rs, r, p, text, n) {
            assert(set_has(row, p, text[0]));
            assert(text[0] == c as u32);
            assert(text.drop_first() == codes(u));
            assert(text =~= codes(t)) by {
                assert forall|k: int| 0 <= k < text.len() implies text[k] == codes(t)[k] by {
                    if k > 0 {
                        assert(text.drop_first()[k - 1] == codes(u)[k - 1]);
                    }
                }
            }
        }
        if text == codes(t) && n > text.len() {
            assert(text[0] == c as u32);
            assert(set_has(row, p, text[0]));
        }
    }
}

/// Whether an alternate begins at `q`, at `p` or behind it.
spec fn begins(rule: Seq<Elem>, p: int, q: int) -> bool {
    p <= q < rule.len() && (q == p || rule[q - 1] == Elem::Alt)
}

/// The first of the choices that stand at `p` of a rule, and the others.
proof fn lemma_choices_split(rule: Seq<Elem>, p: int, ts: Seq<Seq<char>>)
    requires
        0 <= p <= rule.len(),
        ts.len() > 0,
        rule.skip(p) == choices_row(ts),
    ensures
        text_at_place(rule, p, ts[0]),
        ts.len() > 1 ==> {
            let n = p + ts[0].len() + 1;
            &&& n <= rule.len()
            &&& rule[n - 1] == Elem::Alt
            &&& rule.skip(n) == choices_row(ts.drop_first())
        },
        ts.len() == 1 ==> p + ts[0].len() + 1 == rule.len() && rule.last() == Elem::End,
{
    let w = rule.skip(p);
    let t = ts[0];
    assert forall|i: int| 0 <= i < w.len() implies rule[p + i] == #[trigger] w[i] by {}
    if ts.len() == 1 {
        assert(w == chars_elems(t).push(Elem::End));
        assert(w.len() == t.len() + 1);
        assert(rule[p + t.len()] == w[t.len() as int]);
    } else {
        assert(w == chars_elems(t).push(Elem::Alt) + choices_row(ts.drop_first()));
    }
    assert(w[t.len() as int] is End || w[t.len() as int] is Alt);
    assert forall|k: int| 0 <= k < t.len() implies rule[p + k] == Elem::Char(#[trigger] t[k] as u32) by {
        assert(w[k] == chars_elems(t)[k]);
    }
    if ts.len() > 1 {
        let rest = choices_row(ts.drop_first());
        let n = p + t.len() + 1;
        assert(w[t.len() as int] == Elem::Alt);
        assert(rule.skip(n) =~= rest) by {
            assert forall|i: int| 0 <= i < rest.len() implies rule[n + i] == #[trigger] rest[i] by {
                assert(w[t.len() as int + 1 + i] == rest[i]);
            }
        }
    }
}

/// What an alternate of some choices reads is one of them.
proof fn lemma_choices_read(rs: Seq<Seq<Elem>>, r: int, p: int, ts: Seq<Seq<char>>, q: int, text: Seq<u32>, n: nat)
    requires
        0 <= r < rs.len(),
        0 <= p <= rs[r].len(),
        ts.len() > 0,
        rs[r].skip(p) == choices_row(ts),
        begins(rs[r], p, q),
        derives(rs, r, q, text, n),
    ensures
        one_of(ts, text),
    decreases ts.len(),
{
    let rule = rs[r];
    let t = ts[0];
    lemma_choices_split(rule, p, ts);
    if q == p {
        lemma_text_reads(rs, r, p, t, text, n);
        assert(text == codes(ts[0]));
    } else {
        if q - 1 < p + t.len() {
            assert(rule[p + (q - 1 - p)] == Elem::Char(t[q - 1 - p] as u32));
        }
        assert(ts.len() > 1);
        let rest = ts.drop_first();
        let m = p + t.len() + 1;
        lemma_choices_read(rs, r, m, rest, q, text, n);
        let j = choose|j: int| 0 <= j < rest.len() && text == codes(#[trigger] rest[j]);
        assert(ts[j + 1] == rest[j]);
    }
}

/// Each of some choices is read by an alternate.
proof fn lemma_choices_are_read(rs: Seq<Seq<Elem>>, r: int, p: int, ts: Seq<Seq<char>>, j: int) -> (q: int)
    requires
        0 <= r < rs.len(),
        0 <= p <= rs[r].len(),
        0 <= j < ts.len(),
        rs[r].skip(p) == choices_row(ts),
    ensures
        begins(rs[r], p, q),
        derives(rs, r, q, codes(ts[j]), (ts[j].len() + 1) as nat),
    decreases ts.len(),
{
    let rule = rs[r];
    lemma_choices_split(rule, p, ts);
    if j == 0 {
        lemma_text_reads(rs, r, p, ts[0], codes(ts[0]), (ts[0].len() + 1) as nat);
        p
    } else {
        let rest = ts.drop_first();
        assert(rest[j - 1] == ts[j]);
        let m = p + ts[0].len() + 1;
        let q = lemma_choices_are_read(rs, r, m, rest, j - 1);
        q
    }
}

/// The rules of a grammar for some texts: the root refers to the rule that reads one of them.
pub open spec fn chooses(rs: Seq<Seq<Elem>>, root: int, id: int, ts: Seq<Seq<char>>) -> bool {
    &&& 0 <= root < rs.len()
    &&& 0 <= id < rs.len()
    &&& id <= usize::MAX
    &&& ts.len() > 0
    &&& rs[root] == seq![rule_ref(id), Elem::End]
    &&& rs[id] == choices_row(ts)
}

/// Whether a text is one of some.
pub open spec fn one_of(ts: Seq<Seq<char>>, text: Seq<u32>) -> bool {
    exists|j: int| 0 <= j < ts.len() && text == codes(#[trigger] ts[j])
}

/// A rule that is a reference reads what an alternate of the rule referred to reads.
proof fn lemma_reference_reads(rs: Seq<Seq<Elem>>, root: int, id: int, b: int, text: Seq<u32>, n: nat)
    requires
        0 <= root < rs.len(),
        0 <= id < rs.len(),
        id <= usize::MAX,
        rs[root] == seq![rule_ref(id), Elem::End],
        0 <= b < starts(rs[id]).len(),
        derives(rs, id, starts(rs[id])[b], text, n),
        n > 0,
    ensures
        derives(rs, root, 0, text, n + 1),
{
    let k = text.len() as int;
    let m: nat = n + 1;
    assert(text.take(k) =~= text);
    assert(text.skip(k) =~= seq![]);
    assert(rs[root][0] == Elem::RuleRef(id as usize));
    assert(rs[root][1] == Elem::End);
    assert((m - 1) as nat == n);
    assert(derives(rs, root, 1, text.skip(k), (m - 1) as nat));
    assert(derives(rs, id, starts(rs[id])[b], text.take(k), (m - 1) as nat));
    match rs[root][0] {
        Elem::RuleRef(s) => {
            assert(s as int == id);
            assert(derives(rs, s as int, starts(rs[s as int])[b], text.take(k), (m - 1) as nat));
        },
        _ => {},
    }
    assert(derives(rs, root, 0, text, m));
}

proof fn lemma_choices_language(rs: Seq<Seq<Elem>>, root: int, id: int, ts: Seq<Seq<char>>, text: Seq<u32>)
    requires
        chooses(rs, root, id, ts),
    ensures
        in_language(rs, root, text) <==> one_of(ts, text),
{
    let row = choices_row(ts);
    let rule = rs[root];
    assert(rule[0] == Elem::RuleRef(id as usize));
    assert(rule[1] == Elem::End);
    lemma_starts(rule, rule.len() as int);
    lemma_starts(row, row.len() as int);
    lemma_choices_elems(ts);
    assert(row.skip(0) =~= row);
    let sts = starts(row);
    if in_language(rs, root, text) {
        let (a, n) = choose|a: int, n: nat|
            0 <= a < starts(rule).len() && #[trigger] derives(rs, root, starts(rule)[a], text, n);
        assert(starts(rule)[a] == 0);
        let (k, b) = choose|k: int, b: int|
            #![trigger text.take(k), sts[b]]
            0 <= k <= text.len() && 0 <= b < sts.len() && derives(rs, id, sts[b], text.take(k), (n - 1) as nat)
                && derives(rs, root, 1, text.skip(k), (n - 1) as nat);
        assert(text.skip(k).len() == 0);
        assert(text.take(k) =~= text);
        assert(begins(row, 0, sts[b])) by {
            if sts[b] > 0 {
                assert(row[sts[b] - 1] == Elem::Alt);
                assert(row[row.len() - 1] == Elem::End);
            }
        }
        lemma_choices_read(rs, id, 0, ts, sts[b], text, (n - 1) as nat);
    }
    if one_of(ts, text) {
        let j = choose|j: int| 0 <= j < ts.len() && text == codes(#[trigger] ts[j]);
        let q = lemma_choices_are_read(rs, id, 0, ts, j);
        let n: nat = (text.len() + 1) as nat;
        assert(sts.contains(q));
        let b = choose|b: int| 0 <= b < sts.len() && sts[b] == q;
        lemma_reference_reads(rs, root, id, b, text, n);
        let z = choose|a: int| 0 <= a < starts(rule).len() && starts(rule)[a] == 0;
        assert(derives(rs, root, starts(rule)[z], text, n + 1));
    }
}

proof fn lemma_probe_choices(rs: Seq<Seq<Elem>>, id: int, ts: Seq<Seq<char>>, sts: Seq<int>, d: nat)
    requires
        0 <= id < rs.len(),
        ts.len() > 0,
        rs[id] == choices_row(ts),
        forall|a: int| 0 <= a < sts.len() ==> 0 <= #[trigger] sts[a] < rs[id].len(),
    ensures
        probe_alts(rs, id, sts, d) is Some,
    decreases sts.len(),
{
    if sts.len() > 0 {
        lemma_choices_elems(ts);
        let p = sts.last();
        assert(sts[sts.len() - 1] == p);
        assert(rs[id][p] is Char || rs[id][p] is End || rs[id][p] is Alt);
        assert(probe(rs, id, p, d) is Some);
        assert forall|a: int| 0 <= a < sts.drop_last().len() implies 0 <= #[trigger] sts.drop_last()[a] < rs[id].len() by {
            assert(sts.drop_last()[a] == sts[a]);
        }
        lemma_probe_choices(rs, id, ts, sts.drop_last(), d);
    }
}

proof fn lemma_choices_sound(rs: Seq<Seq<Elem>>, root: int, id: int, ts: Seq<Seq<char>>)
    requires
        tidy(rs),
        chooses(rs, root, id, ts),
    ensures
        sound_from(rs, root),
{
    let live = set![root, id];
    let row = choices_row(ts);
    lemma_choices_elems(ts);
    lemma_starts(row, row.len() as int);
    let sts = starts(row);
    assert forall|a: int| 0 <= a < sts.len() implies 0 <= #[trigger] sts[a] < row.len() by {
        if sts[a] > 0 {
            assert(row[sts[a] - 1] == Elem::Alt);
            assert(row[row.len() - 1] == Elem::End);
        }
    }
    assert(sound_rule(rs, id)) by {
        assert forall|i: int| 0 <= i < rs[id].len() implies #[trigger] probe(rs, id, i, rs.len()) is Some by {
            assert(row[i] is Char || row[i] is End || row[i] is Alt);
        }
    }
    assert(sound_rule(rs, root)) by {
        assert(rs[root][0] == Elem::RuleRef(id as usize));
        assert(rs[root][1] == Elem::End);
        lemma_probe_choices(rs, id, ts, sts, (rs.len() - 1) as nat);
        assert(probe(rs, root, 1, rs.len()) == Some(true));
        assert(probe(rs, root, 0, rs.len()) is Some);
        assert forall|i: int| 0 <= i < rs[root].len() implies #[trigger] probe(rs, root, i, rs.len()) is Some by {
            assert(i == 0 || i == 1);
        }
    }
    assert forall|r: int, i: int| live.contains(r) && 0 <= i < rs[r].len() implies match #[trigger] rs[r][i] {
        Elem::RuleRef(s) => live.contains(s as int),
        _ => true,
    } by {
        if r == id {
            assert(row[i] is Char || row[i] is End || row[i] is Alt);
        }
    }
    assert(closed_under(rs, live));
    assert(live.contains(root));
}

/// The body of a reference to the first numbered rule, compiled.
proof fn lemma_reference_compiles(d: Draft, s: Seq<char>)
    requires
        s == seq![' ', 'n', '1'],
        name_index(d.names, seq!['n', '1']) >= 0,
    ensures
        alternates(d, seq![], s, 0, false) == Ok::<(Draft, Seq<Elem>, int), GrammarError>(
            (d, seq![rule_ref(name_index(d.names, seq!['n', '1'])), Elem::End], 3),
        ),
{
    let row = seq![rule_ref(name_index(d.names, seq!['n', '1']))];
    assert(skip_white(s, 1) == 1);
    assert(skip_white(s, 0) == 1);
    assert(name_end(s, 3) == 3);
    assert(name_end(s, 2) == 3);
    assert(name_end(s, 1) == 3);
    assert(s.subrange(1, 3) =~= seq!['n', '1']);
    assert(atom(d, s, 1) == Ok::<(Draft, Seq<Elem>, int), GrammarError>((d, row, 3)));
    assert(skip_white(s, 3) == 3);
    assert(postfix(d, row, s, 3) == Ok::<(Draft, Seq<Elem>, int), GrammarError>((d, row, 3)));
    assert(Seq::<Elem>::empty() + row =~= row);
    assert(sequence(d, row, s, 3, false) == Ok::<(Draft, Seq<Elem>, int), GrammarError>((d, row, 3)));
    assert(sequence(d, seq![], s, 0, false) == Ok::<(Draft, Seq<Elem>, int), GrammarError>((d, row, 3)));
    assert(row.push(Elem::End) =~= seq![rule_ref(name_index(d.names, seq!['n', '1'])), Elem::End]);
}

/// The grammar whose root is the first numbered rule, and that rule one of some texts.
proof fn lemma_choices_grammar(ts: Seq<Seq<char>>, body: Seq<char>) -> (id: int)
    requires
        ts.len() > 0,
        seq![' '] + body == choices_text(ts),
    ensures
        ({
            let g = grammar_of(
                rules_text(prelude().push(("root"@, seq!['n', '1'])).push((seq!['n', '1'], body))),
            );
            g matches Ok((rs, root)) && tidy(rs) && chooses(rs, root, id, ts)
        }),
{
    reveal_strlit("root");
    let one = seq!['n', '1'];
    let rules = prelude().push(("root"@, one)).push((one, body));
    let defs = defs_of(rules);
    preludes_are_well_formed();
    let s = seq![' '] + body;
    assert(s.skip(0) =~= s);
    lemma_choices_line(s, 0, ts);
    lemma_comment_shift(seq![' '], body, 0, None);
    assert(comment_index(s, 0, None) == comment_index(s, 1, None));
    lemma_choices_head(ts);
    assert(body.len() > 0);
    assert forall|i: int| 0 <= i < body.len() implies #[trigger] body[i] != '\n' by {
        assert(body[i] == s[i + 1]);
    }
    assert(body.last() == s.last());
    assert(clean((one, body)));
    lemma_comment_none(one);
    assert(clean(("root"@, one)));
    assert forall|i: int| 0 <= i < rules.len() implies clean(#[trigger] rules[i]) by {
        if i < 9 {
            assert(rules[i] == prelude()[i]);
        }
    }
    written_rules_are_read(rules);
    assert("root"@ =~= seq!['r', 'o', 'o', 't']);
    lemma_choices_defs(defs, ts, body);
    lemma_choices_rules(defs, ts)
}

proof fn lemma_comment_none(one: Seq<char>)
    requires
        one == seq!['n', '1'],
    ensures
        comment_index(one, 0, None) == 2,
{
    assert(comment_index(one, 2, None) == 2);
    assert(comment_index(one, 1, None) == 2);
}

/// Whether these are the definitions of a grammar for some texts.
spec fn choosing_defs(defs: Seq<Row>, ts: Seq<Seq<char>>) -> bool {
    &&& defs.len() == 11
    &&& defs[9] == (seq!['r', 'o', 'o', 't'], seq![' ', 'n', '1'])
    &&& defs[10] == (seq!['n', '1'], choices_text(ts))
    &&& forall|i: int| 0 <= i < 9 ==> alternates_end((#[trigger] defs[i]).1, 0, false) is Some
}

proof fn lemma_choices_defs(defs: Seq<Row>, ts: Seq<Seq<char>>, body: Seq<char>)
    requires
        seq![' '] + body == choices_text(ts),
        defs == defs_of(prelude().push(("root"@, seq!['n', '1'])).push((seq!['n', '1'], body))),
    ensures
        choosing_defs(defs, ts),
{
    reveal_strlit("root");
    preludes_are_well_formed();
    let rules = prelude().push(("root"@, seq!['n', '1'])).push((seq!['n', '1'], body));
    assert("root"@ =~= seq!['r', 'o', 'o', 't']);
    assert(seq![' '] + seq!['n', '1'] =~= seq![' ', 'n', '1']);
    assert forall|i: int| 0 <= i < 9 implies alternates_end((#[trigger] defs[i]).1, 0, false) is Some by {
        assert(rules[i] == prelude()[i]);
        assert(alternates_end(seq![' '] + prelude()[i].1, 0, false) is Some);
    }
}

proof fn lemma_choices_rules(defs: Seq<Row>, ts: Seq<Seq<char>>) -> (id: int)
    requires
        ts.len() > 0,
        choosing_defs(defs, ts),
    ensures
        ({
            let root = seq!['r', 'o', 'o', 't'];
            compiled(defs, 11) matches Ok(d) && tidy(d.rules) && name_index(d.names, root) >= 0 && chooses(
                d.rules,
                name_index(d.names, root),
                id,
                ts,
            )
        }),
{
    let root = seq!['r', 'o', 'o', 't'];
    let one = seq!['n', '1'];
    let all = named(defs, 11);
    lemma_named(defs, 11);
    assert(name_index(all.names, defs[9].0) >= 0);
    assert(name_index(all.names, defs[10].0) >= 0);
    lemma_compiled(defs, 9);
    let d9 = compiled(defs, 9)->Ok_0;
    lemma_name_index(all.names, root);
    lemma_name_index(all.names, one);
    lemma_name_index_stays(all.names, d9.names, root);
    lemma_name_index_stays(all.names, d9.names, one);
    let r = name_index(all.names, root);
    let id = name_index(all.names, one);
    assert(r != id) by {
        assert(root[0] != one[0]);
    }
    lemma_reference_compiles(d9, defs[9].1);
    lemma_alternates(d9, seq![], defs[9].1, 0, false);
    lemma_compiled_step(defs, 10, d9);
    let d10 = compiled(defs, 10)->Ok_0;
    assert(d10 == defined(d9, r, seq![rule_ref(id), Elem::End]));
    let s = defs[10].1;
    assert(s.skip(0) =~= s);
    lemma_choices_compile(d10, seq![], s, 0, ts);
    lemma_alternates(d10, seq![], s, 0, false);
    lemma_compiled_step(defs, 11, d10);
    let d11 = compiled(defs, 11)->Ok_0;
    assert(Seq::<Elem>::empty() + choices_row(ts) =~= choices_row(ts));
    assert(d11 == defined(d10, id, choices_row(ts)));
    assert(d11.rules[r] == seq![rule_ref(id), Elem::End]);
    id
}

/// What the grammar of some texts is: every machine on it comes to rest, and it accepts these
/// texts and no other.
pub open spec fn accepts_only(g: Result<(Seq<Seq<Elem>>, int), GrammarError>, ts: Seq<Seq<char>>) -> bool {
    g matches Ok((rs, root)) && sound_from(rs, root) && forall|t: Seq<char>|
        #[trigger] in_language(rs, root, codes(t)) <==> ts.contains(t)
}

proof fn lemma_codes_same(a: Seq<char>, b: Seq<char>)
    requires
        codes(a) == codes(b),
    ensures
        a == b,
{
    assert(a.len() == codes(a).len());
    assert(b.len() == codes(b).len());
    assert forall|i: int| 0 <= i < a.len() implies a[i] == b[i] by {
        assert(codes(a)[i] == a[i] as u32);
        assert(codes(b)[i] == b[i] as u32);
        if a[i] != b[i] {
            lemma_codes_differ(a[i], b[i]);
        }
    }
    assert(a =~= b);
}

proof fn lemma_choices_schema(schema: Json, ts: Seq<Seq<char>>)
    requires
        ts.len() > 0,
        sketch_of(schema) == fresh(Sketch { rules: seq![], n: 0 }, joined(lits_of(ts), " | "@)),
    ensures
        accepts_only(grammar_of(schema_text(schema)), ts),
{
    let body = joined(lits_of(ts), " | "@);
    let one = seq!['n', '1'];
    assert(0usize.wrapping_add(1) == 1);
    assert(decimal(1) =~= seq!['1']);
    assert(seq!['n'] + decimal(1) =~= one);
    let (c, name) = sketch_of(schema);
    assert(name =~= one);
    assert(c.rules =~= seq![(one, body)]);
    let rules = prelude().push(("root"@, one)).push((one, body));
    assert(prelude().push(("root"@, name)) + c.rules =~= rules);
    lemma_choices_text(ts);
    let id = lemma_choices_grammar(ts, body);
    let (rs, root) = grammar_of(schema_text(schema))->Ok_0;
    lemma_choices_sound(rs, root, id, ts);
    assert forall|t: Seq<char>| #[trigger] in_language(rs, root, codes(t)) <==> ts.contains(t) by {
        lemma_choices_language(rs, root, id, ts, codes(t));
        if one_of(ts, codes(t)) {
            let j = choose|j: int| 0 <= j < ts.len() && codes(t) == codes(#[trigger] ts[j]);
            lemma_codes_same(t, ts[j]);
        }
        if ts.contains(t) {
            let j = choose|j: int| 0 <= j < ts.len() && ts[j] == t;
            assert(codes(t) == codes(ts[j]));
        }
    }
}

/// The grammar of a constant compiles, and accepts exactly the constant's compact text.
pub proof fn constants_accept_their_text(schema: Json, v: Json)
    requires
        text_at(schema, "$ref"@) is None,
        member(schema, "const"@) == Some(v),
    ensures
        accepts_only(grammar_of(schema_text(schema)), seq![compact_text(v)]),
{
    let ts = seq![compact_text(v)];
    assert(lits_of(ts) =~= seq![lit_of(compact_text(v))]);
    lemma_choices_schema(schema, ts);
}

/// The grammar of an enumeration compiles, and accepts exactly the compact texts of its values.
pub proof fn enumerations_accept_their_texts(schema: Json, vs: Seq<Json>)
    requires
        text_at(schema, "$ref"@) is None,
        member(schema, "const"@) is None,
        list_at(schema, "enum"@) == Some(vs),
        vs.len() > 0,
    ensures
        accepts_only(grammar_of(schema_text(schema)), Seq::new(vs.len(), |i: int| compact_text(vs[i]))),
{
    let ts = Seq::new(vs.len(), |i: int| compact_text(vs[i]));
    assert(lits_of(ts) =~= lits(vs));
    lemma_choices_schema(schema, ts);
}

/// Rules that are read as they were written, are well formed and have a root compile.
pub proof fn written_rules_compile(rules: Seq<Row>, k: int)
    requires
        forall|i: int| 0 <= i < rules.len() ==> clean(#[trigger] rules[i]),
        forall|i: int| 0 <= i < rules.len() ==> alternates_end(seq![' '] + (#[trigger] rules[i]).1, 0, false) is Some,
        0 <= k < rules.len(),
        rules[k].0 == seq!['r', 'o', 'o', 't'],
    ensures
        grammar_of(rules_text(rules)) is Ok,
{
    let defs = defs_of(rules);
    let n = defs.len() as int;
    written_rules_are_read(rules);
    assert forall|i: int| 0 <= i < n implies alternates_end((#[trigger] defs[i]).1, 0, false) is Some by {
        assert(alternates_end(seq![' '] + rules[i].1, 0, false) is Some);
    }
    lemma_compiled(defs, n);
    lemma_named(defs, n);
    let d = compiled(defs, n)->Ok_0;
    assert(name_index(named(defs, n).names, defs[k].0) >= 0);
    lemma_name_index_stays(named(defs, n).names, d.names, defs[k].0);
}

} // verus!
