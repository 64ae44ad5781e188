//! The grammar of every schema is well formed.
use vstd::prelude::*;
use crate::filter::constants::{lemma_joined_first, lemma_lit_chars_inside, written_rules_compile};
use crate::filter::drafts::{
    alternates_end, lemma_atom_group, lemma_atom_name, lemma_bar, lemma_bars_end, lemma_item,
    lemma_items_end, lemma_items_end_blank, lemma_atom_literal, lemma_literal_ends, sequence_end,
};
use crate::filter::json_schema::{
    before, def_names, def_of, definitions_have_rule_names, fresh, joined, last_part, lemma_decimal_digits,
    lemma_literal_at, lemma_member_smaller, list_body, lit_chars, lit_of, lit_text, lits, members, members_body,
    named_in, node, nodes, object_body, optional_pair, optional_pairs, pair_text, prelude, put, ref_name,
    schema_text, sketch_of, Row, Sketch,
};
use crate::filter::prelude::preludes_are_well_formed;
use crate::filter::reading::{clean, lemma_comment_past, lemma_comment_shift};
use crate::filter::syntax::{comment_index, grammar_of, name_char};
use crate::json::{compact_text, json_string, list_at, member, text_at, Json};
use crate::text::{decimal, white};

verus! {

/// Whether `w` stands at `p` of `s`.
pub open spec fn stands(s: Seq<char>, p: int, w: Seq<char>) -> bool {
    0 <= p && p + w.len() <= s.len() && s.subrange(p, p + w.len()) == w
}

/// A character that begins a word: no white space, and no repetition.
pub open spec fn begins_word(c: char) -> bool {
    !white(c) && c != '*' && c != '+' && c != '?' && c != '{'
}

/// Whether a text ends at `e`, or another word follows behind a space.
pub open spec fn follows(s: Seq<char>, e: int, g: bool) -> bool {
    e == s.len() || (0 <= e && e + 1 < s.len() && s[e] == ' ' && begins_word(s[e + 1]) && sequence_end(s, e, g)
        == sequence_end(s, e + 1, g))
}

/// Whether a text is a run of words, each behind a space, that an alternate passes over and that
/// holds no comment and no line end.
#[verifier::opaque]
pub open spec fn words(w: Seq<char>) -> bool {
    &&& w.len() > 1
    &&& w[0] == ' '
    &&& begins_word(w[1])
    &&& w[1] != '|'
    &&& w[1] != ')'
    &&& w.last() != '\r'
    &&& forall|i: int| 0 <= i < w.len() ==> #[trigger] w[i] != '\n'
    &&& forall|s: Seq<char>, p: int|
        #[trigger] stands(s, p, w) ==> comment_index(s, p, None) == comment_index(s, p + w.len(), None)
    &&& forall|s: Seq<char>, p: int, g: bool|
        #![trigger stands(s, p, w), sequence_end(s, p, g)]
        stands(s, p, w) && follows(s, p + w.len(), g) ==> sequence_end(s, p, g) == sequence_end(s, p + w.len(), g)
            && sequence_end(s, p, g) == sequence_end(s, p + 1, g)
}

pub proof fn lemma_stands_at(s: Seq<char>, p: int, w: Seq<char>, i: int)
    requires
        stands(s, p, w),
        0 <= i < w.len(),
    ensures
        s[p + i] == w[i],
{
    assert(s.subrange(p, p + w.len())[i] == w[i]);
}

pub proof fn lemma_stands_parts(s: Seq<char>, p: int, a: Seq<char>, b: Seq<char>)
    requires
        stands(s, p, a + b),
    ensures
        stands(s, p, a),
        stands(s, p + a.len(), b),
{
    let w = a + b;
    assert forall|i: int| 0 <= i < a.len() implies s[p + i] == a[i] by {
        lemma_stands_at(s, p, w, i);
    }
    assert(s.subrange(p, p + a.len()) =~= a);
    assert forall|i: int| 0 <= i < b.len() implies s[p + a.len() + i] == b[i] by {
        lemma_stands_at(s, p, w, a.len() + i);
    }
    assert(s.subrange(p + a.len(), p + a.len() + b.len()) =~= b);
}

/// Words after words are words.
proof fn lemma_words_then(a: Seq<char>, b: Seq<char>)
    requires
        words(a),
        words(b),
    ensures
        words(a + b),
{
    reveal(words);
    let w = a + b;
    assert(w.last() == b.last());
    assert forall|i: int| 0 <= i < w.len() implies #[trigger] w[i] != '\n' by {
        if i < a.len() {
            assert(w[i] == a[i]);
        } else {
            assert(w[i] == b[i - a.len()]);
        }
    }
    assert forall|s: Seq<char>, p: int| #[trigger] stands(s, p, w) implies comment_index(s, p, None) == comment_index(
        s,
        p + w.len(),
        None,
    ) by {
        lemma_stands_parts(s, p, a, b);
        assert(comment_index(s, p, None) == comment_index(s, p + a.len(), None));
        assert(comment_index(s, p + a.len(), None) == comment_index(s, p + a.len() + b.len(), None));
    }
    assert forall|s: Seq<char>, p: int, g: bool|
        #![trigger stands(s, p, w), sequence_end(s, p, g)]
        stands(s, p, w) && follows(s, p + w.len(), g) implies sequence_end(s, p, g) == sequence_end(s, p + w.len(), g)
        && sequence_end(s, p, g) == sequence_end(s, p + 1, g) by {
        lemma_stands_parts(s, p, a, b);
        let m = p + a.len();
        lemma_stands_at(s, m, b, 0);
        lemma_stands_at(s, m, b, 1);
        assert(stands(s, m, b));
        assert(m + b.len() == p + w.len());
        assert(sequence_end(s, m, g) == sequence_end(s, m + b.len(), g));
        assert(follows(s, m, g));
        assert(sequence_end(s, p, g) == sequence_end(s, m, g));
    }
}

/// A name behind a space is a word.
proof fn lemma_word_name(name: Seq<char>)
    requires
        name.len() > 0,
        forall|i: int| 0 <= i < name.len() ==> name_char(#[trigger] name[i]),
    ensures
        words(seq![' '] + name),
{
    reveal(words);
    let w = seq![' '] + name;
    let n = name.len() as int;
    assert(name_char(name[0]));
    assert(name_char(name[n - 1]));
    assert(w[1] == name[0]);
    assert(w.last() == name[n - 1]);
    assert forall|i: int| 0 <= i < w.len() implies #[trigger] w[i] != '\n' by {
        if i > 0 {
            assert(name_char(name[i - 1]));
        }
    }
    assert forall|s: Seq<char>, p: int| #[trigger] stands(s, p, w) implies comment_index(s, p, None) == comment_index(
        s,
        p + w.len(),
        None,
    ) by {
        assert forall|i: int| p <= i < p + w.len() implies #[trigger] s[i] != '#' && s[i] != '"' && s[i] != '[' by {
            lemma_stands_at(s, p, w, i - p);
            if i > p {
                assert(name_char(name[i - p - 1]));
            }
        }
        lemma_comment_past(s, p, p + w.len());
    }
    assert forall|s: Seq<char>, p: int, g: bool|
        #![trigger stands(s, p, w), sequence_end(s, p, g)]
        stands(s, p, w) && follows(s, p + w.len(), g) implies sequence_end(s, p, g) == sequence_end(s, p + w.len(), g)
        && sequence_end(s, p, g) == sequence_end(s, p + 1, g) by {
        let q = p + w.len();
        lemma_stands_at(s, p, w, 0);
        lemma_stands_at(s, p, w, 1);
        assert forall|i: int| p + 1 <= i < q implies name_char(#[trigger] s[i]) by {
            lemma_stands_at(s, p, w, i - p);
            assert(name_char(name[i - p - 1]));
        }
        lemma_atom_name(s, p + 1, q);
        lemma_word_at(s, p, q, g);
    }
}

/// An atom behind a space is passed over.
proof fn lemma_word_at(s: Seq<char>, p: int, q: int, g: bool)
    requires
        0 <= p,
        p + 1 < q <= s.len(),
        s[p] == ' ',
        begins_word(s[p + 1]),
        s[p + 1] != '|' && s[p + 1] != ')',
        crate::filter::drafts::atom_end(s, p + 1) == Some(q),
        follows(s, q, g),
    ensures
        sequence_end(s, p, g) == sequence_end(s, q, g),
        sequence_end(s, p, g) == sequence_end(s, p + 1, g),
{
    let t = if q == s.len() {
        q
    } else {
        q + 1
    };
    lemma_item(s, p, p + 1, q, t, g);
    lemma_item(s, p + 1, p + 1, q, t, g);
}

/// A literal behind a space is a word.
proof fn lemma_word_literal(t: Seq<char>)
    ensures
        words(seq![' '] + lit_of(t)),
{
    reveal(words);
    let l = lit_of(t);
    let w = seq![' '] + l;
    let n = lit_chars(t).len() as int;
    assert(l.len() == n + 2);
    assert(l[0] == '"');
    assert(l[n + 1] == '"');
    assert(w[1] == '"');
    assert(w.last() == '"');
    assert(stands(w, 0, w)) by {
        assert(w.subrange(0, w.len() as int) =~= w);
    }
    lemma_literal_inside(w, 0, t);
    assert forall|i: int| 0 <= i < w.len() implies #[trigger] w[i] != '\n' by {
        if 2 <= i < n + 2 {
            assert(w[i] == lit_chars(t)[i - 2]);
        }
    }
    assert forall|s: Seq<char>, p: int| #[trigger] stands(s, p, w) implies comment_index(s, p, None) == comment_index(
        s,
        p + w.len(),
        None,
    ) by {
        lemma_literal_inside(s, p, t);
    }
    assert forall|s: Seq<char>, p: int, g: bool|
        #![trigger stands(s, p, w), sequence_end(s, p, g)]
        stands(s, p, w) && follows(s, p + w.len(), g) implies sequence_end(s, p, g) == sequence_end(s, p + w.len(), g)
        && sequence_end(s, p, g) == sequence_end(s, p + 1, g) by {
        let q = p + w.len();
        lemma_stands_at(s, p, w, 0);
        lemma_stands_at(s, p, w, 1);
        lemma_stands_parts(s, p, seq![' '], l);
        lemma_literal_at(s, p + 1, t);
        lemma_literal_ends(s, p + 2, seq![]);
        lemma_atom_literal(s, p + 1);
        lemma_word_at(s, p, q, g);
    }
}

proof fn lemma_literal_inside(s: Seq<char>, p: int, t: Seq<char>)
    requires
        stands(s, p, seq![' '] + lit_of(t)),
    ensures
        comment_index(s, p, None) == comment_index(s, p + 1 + lit_of(t).len(), None),
        forall|i: int| 0 <= i < lit_chars(t).len() ==> #[trigger] lit_chars(t)[i] != '\n',
{
    let l = lit_of(t);
    let w = seq![' '] + l;
    let n = lit_chars(t).len() as int;
    lemma_stands_at(s, p, w, 0);
    lemma_stands_at(s, p, w, 1);
    lemma_stands_at(s, p, w, n + 2);
    assert(l[0] == '"');
    assert(l[n + 1] == '"');
    assert(s.subrange(p + 2, p + 2 + n) =~= lit_chars(t)) by {
        assert forall|i: int| 0 <= i < n implies s[p + 2 + i] == #[trigger] lit_chars(t)[i] by {
            lemma_stands_at(s, p, w, i + 2);
            assert(w[i + 2] == l[i + 1]);
        }
    }
    lemma_lit_chars_inside(s, p + 2, t, 0);
    assert(t.take(0) =~= seq![]);
    assert(lit_chars(t.take(0)) =~= seq![]);
    assert(comment_index(s, p, None) == comment_index(s, p + 1, None));
    assert(comment_index(s, p + 1, None) == comment_index(s, p + 2, Some('"')));
}

/// Words in brackets, with a repetition, are a word.
pub open spec fn grouped(a: Seq<char>, op: char) -> Seq<char> {
    seq![' ', '('] + a + seq![' ', ')', op]
}

proof fn lemma_word_group(a: Seq<char>, op: char)
    requires
        words(a),
        op == '*' || op == '?',
    ensures
        words(grouped(a, op)),
{
    reveal(words);
    let w = grouped(a, op);
    let n = a.len() as int;
    assert(w.len() == n + 5);
    assert(w[0] == ' ' && w[1] == '(' && w[n + 2] == ' ' && w[n + 3] == ')' && w[n + 4] == op);
    assert(w.last() == op);
    assert forall|i: int| 0 <= i < w.len() implies #[trigger] w[i] != '\n' by {
        if 2 <= i < n + 2 {
            assert(w[i] == a[i - 2]);
        }
    }
    assert forall|s: Seq<char>, p: int| #[trigger] stands(s, p, w) implies comment_index(s, p, None) == comment_index(
        s,
        p + w.len(),
        None,
    ) by {
        lemma_group_parts(s, p, a, op);
        lemma_comment_past(s, p, p + 2);
        assert(stands(s, p + 2, a));
        lemma_comment_past(s, p + 2 + n, p + n + 5);
    }
    assert forall|s: Seq<char>, p: int, g: bool|
        #![trigger stands(s, p, w), sequence_end(s, p, g)]
        stands(s, p, w) && follows(s, p + w.len(), g) implies sequence_end(s, p, g) == sequence_end(s, p + w.len(), g)
        && sequence_end(s, p, g) == sequence_end(s, p + 1, g) by {
        lemma_group_parts(s, p, a, op);
        let b = p + 2;
        let e = b + n;
        lemma_items_end(s, e, e + 1, true);
        lemma_items_end(s, e + 1, e + 1, true);
        assert(follows(s, e, true));
        assert(stands(s, b, a));
        assert(sequence_end(s, b, true) == sequence_end(s, b + a.len(), true));
        lemma_bars_end(s, b, e + 1, true);
        lemma_atom_group(s, p + 1, e + 1);
        lemma_item(s, p, p + 1, e + 2, e + 3, g);
        lemma_item(s, p + 1, p + 1, e + 2, e + 3, g);
    }
}

proof fn lemma_group_parts(s: Seq<char>, p: int, a: Seq<char>, op: char)
    requires
        stands(s, p, grouped(a, op)),
    ensures
        stands(s, p + 2, a),
        s[p] == ' ',
        s[p + 1] == '(',
        s[p + 2 + a.len()] == ' ',
        s[p + 3 + a.len()] == ')',
        s[p + 4 + a.len()] == op,
        p + 5 + a.len() <= s.len(),
{
    let n = a.len() as int;
    let w = grouped(a, op);
    lemma_stands_at(s, p, w, 0);
    lemma_stands_at(s, p, w, 1);
    lemma_stands_at(s, p, w, n + 2);
    lemma_stands_at(s, p, w, n + 3);
    lemma_stands_at(s, p, w, n + 4);
    assert forall|i: int| 0 <= i < n implies s[p + 2 + i] == a[i] by {
        lemma_stands_at(s, p, w, i + 2);
    }
    assert(s.subrange(p + 2, p + 2 + n) =~= a);
}

/// What separates alternates, and what a body of some is.
proof fn lemma_alternates_text(s: Seq<char>, p: int, parts: Seq<Seq<char>>)
    requires
        parts.len() > 0,
        0 <= p <= s.len(),
        s.skip(p) == seq![' '] + joined(parts, " | "@),
        forall|i: int| 0 <= i < parts.len() ==> words(seq![' '] + #[trigger] parts[i]),
    ensures
        alternates_end(s, p, false) == Some(s.len() as int),
        comment_index(s, p, None) == s.len(),
        forall|i: int| p <= i < s.len() ==> #[trigger] s[i] != '\n',
        s.len() > p + 1,
        s.last() != '\r',
    decreases parts.len(),
{
    reveal_strlit(" | ");
    let w = seq![' '] + parts[0];
    let e = p + w.len();
    let all = s.skip(p);
    assert(words(w));
    assert(w.len() > 1 && w.last() != '\r' && forall|i: int| 0 <= i < w.len() ==> #[trigger] w[i] != '\n') by {
        reveal(words);
    }
    if parts.len() == 1 {
        assert(all =~= w);
        assert(s.subrange(p, e) =~= w);
        lemma_items_end(s, e, e, false);
        lemma_pass(s, p, w, false);
        lemma_bars_end(s, p, e, false);
        assert forall|i: int| p <= i < s.len() implies #[trigger] s[i] != '\n' by {
            lemma_stands_at(s, p, w, i - p);
        }
        lemma_stands_at(s, p, w, w.len() - 1);
    } else {
        let rest = parts.drop_first();
        let tail = seq![' '] + joined(rest, " | "@);
        lemma_joined_first(parts, " | "@);
        assert(all =~= w + seq![' ', '|'] + tail);
        assert forall|i: int| 0 <= i < all.len() implies s[p + i] == #[trigger] all[i] by {}
        assert(s.subrange(p, e) =~= w) by {
            assert forall|i: int| 0 <= i < w.len() implies s[p + i] == #[trigger] w[i] by {
                assert(all[i] == w[i]);
            }
        }
        assert(s[e] == all[w.len() as int]);
        assert(s[e + 1] == all[w.len() as int + 1]);
        assert(s.skip(e + 2) =~= tail) by {
            assert forall|i: int| 0 <= i < tail.len() implies s[e + 2 + i] == #[trigger] tail[i] by {
                assert(all[w.len() as int + 2 + i] == tail[i]);
            }
        }
        lemma_items_end(s, e, e + 1, false);
        lemma_items_end(s, e + 1, e + 1, false);
        lemma_pass(s, p, w, false);
        lemma_bar(s, p, e + 1, false);
        assert forall|i: int| 0 <= i < rest.len() implies words(seq![' '] + #[trigger] rest[i]) by {
            assert(rest[i] == parts[i + 1]);
        }
        lemma_alternates_text(s, e + 2, rest);
        lemma_comment_past(s, e, e + 2);
        assert forall|i: int| p <= i < s.len() implies #[trigger] s[i] != '\n' by {
            if i < e {
                lemma_stands_at(s, p, w, i - p);
            }
        }
    }
}

proof fn lemma_pass(s: Seq<char>, p: int, w: Seq<char>, g: bool)
    requires
        words(w),
        stands(s, p, w),
        follows(s, p + w.len(), g),
    ensures
        sequence_end(s, p, g) == sequence_end(s, p + w.len(), g),
        comment_index(s, p, None) == comment_index(s, p + w.len(), None),
{
    reveal(words);
}

/// Whether a body stands on one line, has no comment and is well formed.
pub open spec fn body_ok(body: Seq<char>) -> bool {
    &&& body.len() > 0 ==> body.last() != '\r'
    &&& forall|i: int| 0 <= i < body.len() ==> #[trigger] body[i] != '\n'
    &&& comment_index(body, 0, None) == body.len()
    &&& alternates_end(seq![' '] + body, 0, false) is Some
}

/// Whether a text can be a rule's name.
pub open spec fn name_ok(name: Seq<char>) -> bool {
    name.len() > 0 && forall|i: int| 0 <= i < name.len() ==> name_char(#[trigger] name[i])
}

/// Whether all rules have names and bodies that are well formed.
pub open spec fn rules_ok(rules: Seq<Row>) -> bool {
    forall|i: int| 0 <= i < rules.len() ==> name_ok((#[trigger] rules[i]).0) && body_ok(rules[i].1)
}

proof fn lemma_choices_ok(parts: Seq<Seq<char>>)
    requires
        forall|i: int| 0 <= i < parts.len() ==> words(seq![' '] + #[trigger] parts[i]),
    ensures
        body_ok(joined(parts, " | "@)),
{
    let body = joined(parts, " | "@);
    let s = seq![' '] + body;
    if parts.len() == 0 {
        assert(body =~= seq![]);
        lemma_items_end_blank(s);
    } else {
        assert(s.skip(0) =~= s);
        lemma_alternates_text(s, 0, parts);
        lemma_comment_shift(seq![' '], body, 0, None);
        assert(comment_index(s, 0, None) == comment_index(s, 1, None));
        assert forall|i: int| 0 <= i < body.len() implies #[trigger] body[i] != '\n' by {
            assert(body[i] == s[i + 1]);
        }
        assert(body.last() == s.last());
    }
}

proof fn lemma_body_ok(body: Seq<char>)
    requires
        words(seq![' '] + body),
    ensures
        body_ok(body),
{
    lemma_choices_ok(seq![body]);
}

proof fn lemma_plain_literal(c: char)
    requires
        c != '"' && c != '\\' && c != '\n',
    ensures
        lit_of(seq![c]) == seq!['"', c, '"'],
        words(seq![' ', '"', c, '"']),
{
    assert(seq![c].drop_last() =~= seq![]);
    assert(lit_chars(seq![c].drop_last()) =~= seq![]);
    assert(lit_chars(seq![c]) =~= seq![c]);
    assert(lit_of(seq![c]) =~= seq!['"', c, '"']);
    lemma_word_literal(seq![c]);
    assert(seq![' '] + lit_of(seq![c]) =~= seq![' ', '"', c, '"']);
}

proof fn lemma_space_word()
    ensures
        words(seq![' ', 'w', 's']),
{
    let name = seq!['w', 's'];
    lemma_word_name(name);
    assert(seq![' '] + name =~= seq![' ', 'w', 's']);
}

/// A separator with space around it.
spec fn spaced(c: char) -> Seq<char> {
    seq![' ', 'w', 's'] + seq![' ', '"', c, '"'] + seq![' ', 'w', 's']
}

proof fn lemma_spaced(c: char)
    requires
        c != '"' && c != '\\' && c != '\n',
    ensures
        words(spaced(c)),
{
    lemma_space_word();
    lemma_plain_literal(c);
    lemma_words_then(seq![' ', 'w', 's'], seq![' ', '"', c, '"']);
    lemma_words_then(seq![' ', 'w', 's'] + seq![' ', '"', c, '"'], seq![' ', 'w', 's']);
}

proof fn lemma_pair_words(key: Seq<char>, symbol: Seq<char>)
    requires
        name_ok(symbol),
    ensures
        words(seq![' '] + pair_text(key, symbol)),
{
    reveal_strlit(" ws \":\" ws ");
    let a = seq![' '] + lit_of(json_string(key));
    lemma_word_literal(json_string(key));
    lemma_spaced(':');
    lemma_word_name(symbol);
    lemma_words_then(a, spaced(':'));
    lemma_words_then(a + spaced(':'), seq![' '] + symbol);
    assert(seq![' '] + pair_text(key, symbol) =~= a + spaced(':') + (seq![' '] + symbol));
}

proof fn lemma_optional_words(pair: Seq<char>)
    requires
        words(seq![' '] + pair),
    ensures
        words(optional_pair(pair)),
{
    reveal_strlit(" ( ws \",\" ws ");
    reveal_strlit(" )?");
    lemma_spaced(',');
    lemma_words_then(spaced(','), seq![' '] + pair);
    lemma_word_group(spaced(',') + (seq![' '] + pair), '?');
    assert(optional_pair(pair) =~= grouped(spaced(',') + (seq![' '] + pair), '?'));
}

proof fn lemma_then_optional(a: Seq<char>, pairs: Seq<Seq<char>>)
    requires
        words(a),
        forall|i: int| 0 <= i < pairs.len() ==> words(seq![' '] + #[trigger] pairs[i]),
    ensures
        words(a + optional_pairs(pairs)),
    decreases pairs.len(),
{
    if pairs.len() == 0 {
        assert(a + optional_pairs(pairs) =~= a);
    } else {
        let rest = pairs.drop_last();
        assert forall|i: int| 0 <= i < rest.len() implies words(seq![' '] + #[trigger] rest[i]) by {
            assert(rest[i] == pairs[i]);
        }
        lemma_then_optional(a, rest);
        assert(words(seq![' '] + pairs[pairs.len() - 1]));
        lemma_optional_words(pairs.last());
        lemma_words_then(a + optional_pairs(rest), optional_pair(pairs.last()));
        assert(a + optional_pairs(pairs) =~= a + optional_pairs(rest) + optional_pair(pairs.last()));
    }
}

proof fn lemma_required_words(pairs: Seq<Seq<char>>)
    requires
        pairs.len() > 0,
        forall|i: int| 0 <= i < pairs.len() ==> words(seq![' '] + #[trigger] pairs[i]),
    ensures
        words(seq![' '] + joined(pairs, " ws \",\" ws "@)),
    decreases pairs.len(),
{
    reveal_strlit(" ws \",\" ws ");
    let sep = " ws \",\" ws "@;
    if pairs.len() == 1 {
        assert(words(seq![' '] + pairs[0]));
    } else {
        let rest = pairs.drop_last();
        assert forall|i: int| 0 <= i < rest.len() implies words(seq![' '] + #[trigger] rest[i]) by {
            assert(rest[i] == pairs[i]);
        }
        lemma_required_words(rest);
        assert(words(seq![' '] + pairs[pairs.len() - 1]));
        lemma_spaced(',');
        let a = seq![' '] + joined(rest, sep);
        lemma_words_then(a, spaced(','));
        lemma_words_then(a + spaced(','), seq![' '] + pairs.last());
        assert(seq![' '] + joined(pairs, sep) =~= a + spaced(',') + (seq![' '] + pairs.last()));
    }
}

proof fn lemma_object_words(req: Seq<Seq<char>>, opt: Seq<Seq<char>>)
    requires
        req.len() + opt.len() > 0,
        forall|i: int| 0 <= i < req.len() ==> words(seq![' '] + #[trigger] req[i]),
        forall|i: int| 0 <= i < opt.len() ==> words(seq![' '] + #[trigger] opt[i]),
    ensures
        words(seq![' '] + object_body(req, opt)),
{
    reveal_strlit("\"{\" ws ");
    reveal_strlit(" ws \"}\"");
    reveal_strlit("( ");
    reveal_strlit(" )?");
    let inner = seq![' '] + members_body(req, opt);
    assert(words(inner)) by {
        if req.len() > 0 {
            let a = seq![' '] + joined(req, " ws \",\" ws "@);
            lemma_required_words(req);
            lemma_then_optional(a, opt);
            assert(inner =~= a + optional_pairs(opt));
        } else {
            let rest = opt.drop_first();
            let a = seq![' '] + opt[0];
            assert(words(a));
            assert forall|i: int| 0 <= i < rest.len() implies words(seq![' '] + #[trigger] rest[i]) by {
                assert(rest[i] == opt[i + 1]);
            }
            lemma_then_optional(a, rest);
            lemma_word_group(a + optional_pairs(rest), '?');
            assert(inner =~= grouped(a + optional_pairs(rest), '?'));
        }
    }
    let open = seq![' ', '"', '{', '"'];
    let close = seq![' ', '"', '}', '"'];
    let ws = seq![' ', 'w', 's'];
    lemma_plain_literal('{');
    lemma_plain_literal('}');
    lemma_space_word();
    lemma_words_then(open, ws);
    lemma_words_then(open + ws, inner);
    lemma_words_then(open + ws + inner, ws);
    lemma_words_then(open + ws + inner + ws, close);
    assert(seq![' '] + object_body(req, opt) =~= open + ws + inner + ws + close);
}

proof fn lemma_list_words(item: Seq<char>)
    requires
        name_ok(item),
    ensures
        words(seq![' '] + list_body(item)),
{
    reveal_strlit("\"[\" ws ( ");
    reveal_strlit(" ( ws \",\" ws ");
    reveal_strlit(" )* )? ws \"]\"");
    let one = seq![' '] + item;
    let open = seq![' ', '"', '[', '"'];
    let close = seq![' ', '"', ']', '"'];
    let ws = seq![' ', 'w', 's'];
    lemma_word_name(item);
    lemma_spaced(',');
    lemma_words_then(spaced(','), one);
    let more = grouped(spaced(',') + one, '*');
    lemma_word_group(spaced(',') + one, '*');
    lemma_words_then(one, more);
    let all = grouped(one + more, '?');
    lemma_word_group(one + more, '?');
    lemma_plain_literal('[');
    lemma_plain_literal(']');
    lemma_space_word();
    lemma_words_then(open, ws);
    lemma_words_then(open + ws, all);
    lemma_words_then(open + ws + all, ws);
    lemma_words_then(open + ws + all + ws, close);
    assert(seq![' '] + list_body(item) =~= open + ws + all + ws + close);
}

proof fn lemma_put_ok(rules: Seq<Row>, name: Seq<char>, body: Seq<char>)
    requires
        rules_ok(rules),
        name_ok(name),
        body_ok(body),
    ensures
        rules_ok(put(rules, name, body)),
    decreases rules.len(),
{
    let p = put(rules, name, body);
    if rules.len() == 0 || rules[0].0 == name || before(name, rules[0].0) {
        assert forall|i: int| 0 <= i < p.len() implies name_ok((#[trigger] p[i]).0) && body_ok(p[i].1) by {
            if rules.len() > 0 && rules[0].0 == name {
                if i > 0 {
                    assert(p[i] == rules[i]);
                }
            } else if i > 0 {
                assert(p[i] == rules[i - 1]);
            }
        }
    } else {
        let rest = rules.drop_first();
        assert forall|i: int| 0 <= i < rest.len() implies name_ok((#[trigger] rest[i]).0) && body_ok(rest[i].1) by {
            assert(rest[i] == rules[i + 1]);
        }
        lemma_put_ok(rest, name, body);
        let q = put(rest, name, body);
        assert forall|i: int| 0 <= i < p.len() implies name_ok((#[trigger] p[i]).0) && body_ok(p[i].1) by {
            if i > 0 {
                assert(p[i] == q[i - 1]);
            } else {
                assert(p[0] == rules[0]);
            }
        }
    }
}

proof fn lemma_fresh_ok(c: Sketch, body: Seq<char>)
    requires
        rules_ok(c.rules),
        body_ok(body),
    ensures
        rules_ok(fresh(c, body).0.rules),
        name_ok(fresh(c, body).1),
{
    let d = decimal(c.n.wrapping_add(1) as nat);
    let name = seq!['n'] + d;
    lemma_decimal_digits(c.n.wrapping_add(1) as nat);
    assert forall|i: int| 0 <= i < name.len() implies name_char(#[trigger] name[i]) by {
        if i > 0 {
            assert(name[i] == d[i - 1]);
        }
    }
    lemma_put_ok(c.rules, name, body);
}

proof fn lemma_word_symbol(x: Seq<char>)
    requires
        name_ok(x),
    ensures
        words(seq![' '] + x),
        body_ok(x),
{
    lemma_word_name(x);
    lemma_body_ok(x);
}

proof fn lemma_fixed_names()
    ensures
        name_ok("value"@),
        name_ok("object"@),
        name_ok("string"@),
        name_ok("integer"@),
        name_ok("number"@),
        name_ok("boolean"@),
        name_ok("null"@),
{
    reveal_strlit("value");
    reveal_strlit("object");
    reveal_strlit("string");
    reveal_strlit("integer");
    reveal_strlit("number");
    reveal_strlit("boolean");
    reveal_strlit("null");
}

proof fn lemma_ref_ok(name: Seq<char>)
    ensures
        name_ok(ref_name(name)),
{
    reveal_strlit("ref_");
    definitions_have_rule_names(name);
}

proof fn lemma_values_ok(vs: Seq<Json>)
    ensures
        body_ok(joined(lits(vs), " | "@)),
{
    let parts = lits(vs);
    assert forall|i: int| 0 <= i < parts.len() implies words(seq![' '] + #[trigger] parts[i]) by {
        lemma_word_literal(compact_text(vs[i]));
    }
    lemma_choices_ok(parts);
}

proof fn lemma_symbols_ok(alts: Seq<Seq<char>>)
    requires
        forall|i: int| 0 <= i < alts.len() ==> name_ok(#[trigger] alts[i]),
    ensures
        body_ok(joined(alts, " | "@)),
{
    assert forall|i: int| 0 <= i < alts.len() implies words(seq![' '] + #[trigger] alts[i]) by {
        lemma_word_name(alts[i]);
    }
    lemma_choices_ok(alts);
}

proof fn lemma_node_ok(root: Json, depth: nat, c: Sketch, s: Json)
    requires
        rules_ok(c.rules),
    ensures
        rules_ok(node(root, depth, c, s).0.rules),
        name_ok(node(root, depth, c, s).1),
    decreases depth, s, 1nat,
{
    lemma_member_smaller(s, "anyOf"@);
    lemma_member_smaller(s, "oneOf"@);
    lemma_member_smaller(s, "items"@);
    lemma_member_smaller(s, "properties"@);
    lemma_fixed_names();
    match text_at(s, "$ref"@) {
        Some(r) => {
            let key = ref_name(last_part(r));
            lemma_ref_ok(last_part(r));
            match def_of(root, last_part(r)) {
                Some(def) => if !named_in(c.rules, key) && depth > 0 {
                    let open = Sketch { rules: put(c.rules, key, "value"@), ..c };
                    lemma_word_symbol("value"@);
                    lemma_put_ok(c.rules, key, "value"@);
                    lemma_node_ok(root, (depth - 1) as nat, open, def);
                    let (d, body) = node(root, (depth - 1) as nat, open, def);
                    lemma_word_symbol(body);
                    lemma_put_ok(d.rules, key, body);
                },
                None => {},
            }
        },
        None => match member(s, "const"@) {
            Some(v) => {
                lemma_word_literal(compact_text(v));
                lemma_body_ok(lit_text(v));
                lemma_fresh_ok(c, lit_text(v));
            },
            None => match list_at(s, "enum"@) {
                Some(vs) => {
                    lemma_values_ok(vs);
                    lemma_fresh_ok(c, joined(lits(vs), " | "@));
                },
                None => match member(s, "anyOf"@) {
                    Some(Json::List(vs)) => {
                        lemma_nodes_ok(root, depth, c, vs@, vs@.len());
                        let (d, alts) = nodes(root, depth, c, vs@, vs@.len());
                        lemma_symbols_ok(alts);
                        lemma_fresh_ok(d, joined(alts, " | "@));
                    },
                    _ => match member(s, "oneOf"@) {
                        Some(Json::List(vs)) => {
                            lemma_nodes_ok(root, depth, c, vs@, vs@.len());
                            let (d, alts) = nodes(root, depth, c, vs@, vs@.len());
                            lemma_symbols_ok(alts);
                            lemma_fresh_ok(d, joined(alts, " | "@));
                        },
                        _ => {
                            lemma_typed_ok(root, depth, c, s);
                        },
                    },
                },
            },
        },
    }
}

proof fn lemma_typed_ok(root: Json, depth: nat, c: Sketch, s: Json)
    requires
        rules_ok(c.rules),
        text_at(s, "$ref"@) is None,
        member(s, "const"@) is None,
        list_at(s, "enum"@) is None,
        !(member(s, "anyOf"@) matches Some(Json::List(_))),
        !(member(s, "oneOf"@) matches Some(Json::List(_))),
    ensures
        rules_ok(node(root, depth, c, s).0.rules),
        name_ok(node(root, depth, c, s).1),
    decreases depth, s, 0nat,
{
    lemma_member_smaller(s, "items"@);
    lemma_member_smaller(s, "properties"@);
    lemma_fixed_names();
    match text_at(s, "type"@) {
        Some(t) => {
            if t == "string"@ || t == "integer"@ || t == "number"@ || t == "boolean"@ || t == "null"@ {
            } else if t == "array"@ {
                match member(s, "items"@) {
                    Some(it) => {
                        lemma_node_ok(root, depth, c, it);
                        let (d, item) = node(root, depth, c, it);
                        lemma_list_words(item);
                        lemma_body_ok(list_body(item));
                        lemma_fresh_ok(d, list_body(item));
                    },
                    None => {
                        lemma_list_words("value"@);
                        lemma_body_ok(list_body("value"@));
                        lemma_fresh_ok(c, list_body("value"@));
                    },
                }
            } else if t == "object"@ {
                match member(s, "properties"@) {
                    Some(Json::Object(o)) => {
                        if o@.len() > 0 {
                            lemma_members_ok(root, depth, c, s, o@, o@.len());
                            let (d, req, opt) = members(root, depth, c, s, o@, o@.len());
                            lemma_object_words(req, opt);
                            lemma_body_ok(object_body(req, opt));
                            lemma_fresh_ok(d, object_body(req, opt));
                        }
                    },
                    _ => {},
                }
            }
        },
        None => {},
    }
}

proof fn lemma_nodes_ok(root: Json, depth: nat, c: Sketch, vs: Seq<Json>, n: nat)
    requires
        rules_ok(c.rules),
    ensures
        rules_ok(nodes(root, depth, c, vs, n).0.rules),
        forall|i: int|
            0 <= i < nodes(root, depth, c, vs, n).1.len() ==> name_ok(#[trigger] nodes(root, depth, c, vs, n).1[i]),
    decreases depth, vs, n,
{
    if 0 < n <= vs.len() {
        lemma_nodes_ok(root, depth, c, vs, (n - 1) as nat);
        lemma_node_ok(root, depth, nodes(root, depth, c, vs, (n - 1) as nat).0, vs[n - 1]);
    }
}

proof fn lemma_members_ok(root: Json, depth: nat, c: Sketch, s: Json, o: Seq<(String, Json)>, n: nat)
    requires
        rules_ok(c.rules),
        n <= o.len(),
    ensures
        rules_ok(members(root, depth, c, s, o, n).0.rules),
        members(root, depth, c, s, o, n).1.len() + members(root, depth, c, s, o, n).2.len() == n,
        forall|i: int|
            0 <= i < members(root, depth, c, s, o, n).1.len() ==> words(
                seq![' '] + #[trigger] members(root, depth, c, s, o, n).1[i],
            ),
        forall|i: int|
            0 <= i < members(root, depth, c, s, o, n).2.len() ==> words(
                seq![' '] + #[trigger] members(root, depth, c, s, o, n).2[i],
            ),
    decreases depth, o, n,
{
    if n > 0 {
        assert(decreases_to!(o => o[n - 1]));
        assert(decreases_to!(o[n - 1] => o[n - 1].1));
        lemma_members_ok(root, depth, c, s, o, (n - 1) as nat);
        let (d, req, opt) = members(root, depth, c, s, o, (n - 1) as nat);
        lemma_node_ok(root, depth, d, o[n - 1].1);
        let (e, x) = node(root, depth, d, o[n - 1].1);
        lemma_pair_words(o[n - 1].0@, x);
    }
}

/// The rules of a schema are read as they were written.
pub proof fn schema_rules_are_clean(schema: Json)
    ensures
        ({
            let (c, root) = sketch_of(schema);
            let rules = prelude().push(("root"@, root)) + c.rules;
            forall|i: int| 0 <= i < rules.len() ==> clean(#[trigger] rules[i]) && alternates_end(
                seq![' '] + rules[i].1,
                0,
                false,
            ) is Some
        }),
        name_ok(sketch_of(schema).1),
{
    reveal_strlit("root");
    let start = Sketch { rules: seq![], n: 0 };
    lemma_node_ok(schema, def_names(schema).len(), start, schema);
    let (c, root) = sketch_of(schema);
    preludes_are_well_formed();
    lemma_word_symbol(root);
    let rules = prelude().push(("root"@, root)) + c.rules;
    assert("root"@ =~= seq!['r', 'o', 'o', 't']);
    assert(rules[9] == ("root"@, root));
    assert forall|i: int| 0 <= i < rules.len() implies clean(#[trigger] rules[i]) && alternates_end(
        seq![' '] + rules[i].1,
        0,
        false,
    ) is Some by {
        if i < 9 {
            assert(rules[i] == prelude()[i]);
        } else if i > 9 {
            assert(rules[i] == c.rules[i - 10]);
        }
    }
}

/// Every schema compiles.
pub proof fn schemas_compile(schema: Json)
    ensures
        grammar_of(schema_text(schema)) is Ok,
{
    reveal_strlit("root");
    schema_rules_are_clean(schema);
    preludes_are_well_formed();
    let (c, root) = sketch_of(schema);
    let rules = prelude().push(("root"@, root)) + c.rules;
    assert("root"@ =~= seq!['r', 'o', 'o', 't']);
    assert(rules[9] == ("root"@, root));
    written_rules_compile(rules, 9);
}

} // verus!
