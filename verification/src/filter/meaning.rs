//! What a written rule reads: its alternates, each item by item, as they stand on the page.
use vstd::prelude::*;
use crate::filter::automaton::{set_end, set_has, shaped, Elem};
use crate::filter::drafts::{lemma_name_index, lemma_name_index_stays, unended};
use crate::filter::forms::{lemma_stands_at, lemma_stands_parts, stands};
use crate::filter::json_schema::{chars_elems, lemma_literal_at, rules_text, Row};
use crate::filter::language::{codes, in_language};
use crate::filter::orders::{
    drawn, drawn_as, lemma_own_index, lemma_rules_compiled, names_of, own_names,
};
use crate::filter::reading::{clean, defs_of, written_rules_are_read};
use crate::filter::repeats::{is_times, keeps_new, lemma_ref, made_of, marks_say_how_often, may_repeat};
use crate::filter::shapes::{
    alts_ok, alts_text, closes, ends_at, flat, item_text, items_ok, items_text, kept, lemma_alts_read,
    lemma_between, lemma_items_first, lemma_items_read, lemma_more,
    lemma_no_items, lemma_op, lemma_piece, lemma_piece_opens, lemma_step, more, numbered, op_text, piece_ok,
    piece_text, Item, Piece,
};
use crate::filter::soundness::takes;
use crate::filter::spans::{
    barred, both, flat_all, lemma_spans_add, parts, rules_read_what_a_row_reads, spans,
};
use crate::filter::syntax::{
    alternates, atom, class, compiled, defined, escaped, grammar_of, interned, member, name_char, name_index, postfix, rule_ref, sequence,
    Draft, GrammarError,
};
use crate::text::skip_white;

verus! {

/// Whether an atom as it is written reads `text`: a text itself, a name what its rule reads, a
/// group what one of its alternates reads. A class reads one character, which one is left open:
/// where `loose` it is any, else none.
pub open spec fn piece_means(rs: Seq<Seq<Elem>>, all: Seq<Seq<char>>, x: Piece, loose: bool, text: Seq<u32>) -> bool
    decreases x,
{
    match x {
        Piece::Lit(t) => text == codes(t),
        Piece::Class(_) => loose && text.len() == 1,
        Piece::Name(n) => in_language(rs, name_index(all, n), text),
        Piece::Group(v) => alts_mean(rs, all, v, loose, text),
    }
}

/// Whether an atom with its mark reads `text`: as many texts of the atom as the mark allows.
pub open spec fn item_means(rs: Seq<Seq<Elem>>, all: Seq<Seq<char>>, i: Item, loose: bool, text: Seq<u32>) -> bool
    decreases i,
{
    match i.op {
        None => piece_means(rs, all, i.piece, loose, text),
        Some(c) => exists|ts: Seq<Seq<u32>>| #[trigger]
            ts.flatten() == text && may_repeat(c, ts.len()) && forall|j: int|
                0 <= j < ts.len() ==> piece_means(rs, all, i.piece, loose, #[trigger] ts[j]),
    }
}

/// Whether items in a row read `text`.
pub open spec fn items_mean(rs: Seq<Seq<Elem>>, all: Seq<Seq<char>>, v: Seq<Item>, loose: bool, text: Seq<u32>) -> bool
    decreases v,
{
    if v.len() == 0 {
        text.len() == 0
    } else {
        exists|k: int|
            #![trigger text.take(k)]
            0 <= k <= text.len() && item_means(rs, all, v[0], loose, text.take(k)) && items_mean(
                rs,
                all,
                v.drop_first(),
                loose,
                text.skip(k),
            )
    }
}

/// Whether one of some alternates reads `text`.
pub open spec fn alts_mean(
    rs: Seq<Seq<Elem>>,
    all: Seq<Seq<char>>,
    v: Seq<Seq<Item>>,
    loose: bool,
    text: Seq<u32>,
) -> bool
    decreases v,
{
    exists|j: int| 0 <= j < v.len() && items_mean(rs, all, #[trigger] v[j], loose, text)
}

/// Whether a row reads what an atom reads.
pub open spec fn as_piece(rs: Seq<Seq<Elem>>, all: Seq<Seq<char>>, row: Seq<Elem>, x: Piece) -> bool {
    forall|text: Seq<u32>|
        (#[trigger] spans(rs, row, text) ==> piece_means(rs, all, x, true, text)) && (piece_means(
            rs,
            all,
            x,
            false,
            text,
        ) ==> spans(rs, row, text))
}

/// Whether a row reads what an item reads.
pub open spec fn as_item(rs: Seq<Seq<Elem>>, all: Seq<Seq<char>>, row: Seq<Elem>, i: Item) -> bool {
    forall|text: Seq<u32>|
        (#[trigger] spans(rs, row, text) ==> item_means(rs, all, i, true, text)) && (item_means(
            rs,
            all,
            i,
            false,
            text,
        ) ==> spans(rs, row, text))
}

/// Whether a row reads what items in a row read.
pub open spec fn as_items(rs: Seq<Seq<Elem>>, all: Seq<Seq<char>>, row: Seq<Elem>, v: Seq<Item>) -> bool {
    forall|text: Seq<u32>|
        (#[trigger] spans(rs, row, text) ==> items_mean(rs, all, v, true, text)) && (items_mean(
            rs,
            all,
            v,
            false,
            text,
        ) ==> spans(rs, row, text))
}

/// Whether a rule reads what some alternates read.
pub open spec fn as_alts(rs: Seq<Seq<Elem>>, all: Seq<Seq<char>>, id: int, v: Seq<Seq<Item>>) -> bool {
    forall|text: Seq<u32>|
        (#[trigger] in_language(rs, id, text) ==> alts_mean(rs, all, v, true, text)) && (alts_mean(
            rs,
            all,
            v,
            false,
            text,
        ) ==> in_language(rs, id, text))
}

/// A text is read character by character.
proof fn lemma_lit_spans(rs: Seq<Seq<Elem>>, t: Seq<char>, text: Seq<u32>)
    ensures
        spans(rs, chars_elems(t), text) <==> text == codes(t),
    decreases t.len(),
{
    let row = chars_elems(t);
    if t.len() == 0 {
        assert(row.len() == 0);
        if text.len() == 0 {
            assert(text =~= codes(t));
        }
    } else {
        let rest = t.drop_first();
        let whole = row.push(Elem::End);
        assert(row[0] == Elem::Char(t[0] as u32));
        if t.len() > 1 {
            assert(whole[1] == row[1]);
            assert(row[1] == Elem::Char(t[1] as u32));
        } else {
            assert(whole[1] == Elem::End);
        }
        assert(set_end(whole, 0) == 1);
        assert(row.skip(1) =~= chars_elems(rest));
        if text.len() > 0 {
            assert(set_has(whole, 0, text[0]) <==> text[0] == t[0] as u32);
            lemma_lit_spans(rs, rest, text.drop_first());
            if spans(rs, row, text) {
                assert(text =~= codes(t)) by {
                    assert forall|i: int| 0 <= i < text.len() implies text[i] == codes(t)[i] by {
                        if i > 0 {
                            assert(text.drop_first()[i - 1] == codes(rest)[i - 1]);
                        }
                    }
                }
            }
            if text == codes(t) {
                assert(text.drop_first() =~= codes(rest));
                assert(codes(t)[0] == t[0] as u32);
            }
        } else {
            assert(codes(t).len() > 0);
        }
    }
}

/// What a set is made of behind its first element.
pub open spec fn one_set(row: Seq<Elem>) -> bool {
    row.len() > 0 && takes(row[0]) && forall|i: int|
        0 < i < row.len() ==> (#[trigger] row[i] is CharAlt || row[i] is CharRngUpper)
}

proof fn lemma_class_is_set(s: Seq<char>, p: int, neg: bool, out: Seq<Elem>)
    requires
        out.len() == 0 || one_set(out),
    ensures
        class(s, p, neg, out) matches Ok((row, _)) ==> one_set(row),
    decreases s.len() - p,
{
    if 0 <= p < s.len() && s[p] != ']' {
        match escaped(s, p) {
            Err(_) => {},
            Ok((lo, q)) => {
                if q + 1 < s.len() && s[q] == '-' && s[q + 1] != ']' {
                    match escaped(s, q + 1) {
                        Err(_) => {},
                        Ok((hi, t)) => {
                            if t > p {
                                lemma_class_is_set(s, t, neg, out + member(out.len() == 0, neg, lo, hi));
                            }
                        },
                    }
                } else if q > p {
                    lemma_class_is_set(s, q, neg, out + member(out.len() == 0, neg, lo, lo));
                }
            },
        }
    }
}

proof fn lemma_members_read_nothing(rs: Seq<Seq<Elem>>, row: Seq<Elem>, text: Seq<u32>)
    requires
        forall|i: int| 0 <= i < row.len() ==> (#[trigger] row[i] is CharAlt || row[i] is CharRngUpper),
    ensures
        spans(rs, row, text) <==> text.len() == 0,
    decreases row.len(),
{
    if row.len() > 0 {
        assert(row[0] is CharAlt || row[0] is CharRngUpper);
        lemma_members_read_nothing(rs, row.drop_first(), text);
    }
}

/// A set reads one character.
proof fn lemma_set_reads_one(rs: Seq<Seq<Elem>>, row: Seq<Elem>, text: Seq<u32>)
    requires
        one_set(row),
        spans(rs, row, text),
    ensures
        text.len() == 1,
{
    let q = set_end(row.push(Elem::End), 0);
    let rest = row.skip(q);
    assert forall|i: int| 0 <= i < rest.len() implies (#[trigger] rest[i] is CharAlt || rest[i] is CharRngUpper) by {
        assert(rest[i] == row[q + i]);
    }
    lemma_members_read_nothing(rs, rest, text.drop_first());
}

/// Rules that keep what one draft adds to another keep what a draft in between adds.
proof fn lemma_keeps_less(rs: Seq<Seq<Elem>>, d: Draft, e: Draft, f: Draft, all: Seq<Seq<char>>)
    requires
        keeps_new(rs, d, f),
        kept(d, e, all),
        kept(e, f, all),
    ensures
        keeps_new(rs, d, e),
        keeps_new(rs, e, f),
{
    assert forall|i: int| d.rules.len() <= i < e.rules.len() implies #[trigger] rs[i] == e.rules[i] by {
        assert(rs[i] == f.rules[i]);
    }
}

/// An atom's row reads what the atom reads as it is written.
proof fn lemma_piece_means(
    d: Draft,
    all: Seq<Seq<char>>,
    s: Seq<char>,
    p: int,
    x: Piece,
    lo: int,
    hot: bool,
    rs: Seq<Seq<Elem>>,
)
    requires
        numbered(d, all),
        all.len() <= lo <= d.rules.len() <= rs.len(),
        piece_ok(x, all, hot),
        stands(s, p, piece_text(x)),
        x is Name ==> p + piece_text(x).len() == s.len() || !name_char(s[p + piece_text(x).len()]),
        atom(d, s, p) matches Ok((e, _, _)) ==> keeps_new(rs, d, e),
    ensures
        atom(d, s, p) matches Ok((e, row, q)) && as_piece(rs, all, row, x) && (row.len() > 0 ==> parts(row[0])),
    decreases x, 0nat,
{
    let w = piece_text(x);
    lemma_piece(d, all, s, p, x, lo, hot);
    let (e, row, q) = atom(d, s, p)->Ok_0;
    match x {
        Piece::Lit(t) => {
            lemma_literal_at(s, p, t);
            assert(row == chars_elems(t));
            assert forall|text: Seq<u32>| #[trigger] spans(rs, row, text) <==> text == codes(t) by {
                lemma_lit_spans(rs, t, text);
            }
        },
        Piece::Class(c) => {
            lemma_stands_at(s, p, w, 0);
            assert(s[p] == '[');
            let neg = p + 1 < s.len() && s[p + 1] == '^';
            lemma_class_is_set(
                s,
                if neg {
                    p + 2
                } else {
                    p + 1
                },
                neg,
                seq![],
            );
            assert(one_set(row));
            assert forall|text: Seq<u32>| #[trigger] spans(rs, row, text) implies text.len() == 1 by {
                lemma_set_reads_one(rs, row, text);
            }
        },
        Piece::Name(n) => {
            let id = name_index(all, n);
            lemma_name_index(all, n);
            assert forall|text: Seq<u32>| #[trigger] spans(rs, row, text) <==> in_language(rs, id, text) by {
                lemma_ref(rs, id, text);
            }
        },
        Piece::Group(v) => {
            let t = alts_text(v);
            lemma_stands_parts(s, p, seq!['('] + t, seq![' ', ')']);
            lemma_stands_parts(s, p, seq!['('], t);
            lemma_stands_at(s, p, seq!['('], 0);
            let z = p + 1 + t.len();
            lemma_stands_at(s, z, seq![' ', ')'], 0);
            lemma_stands_at(s, z, seq![' ', ')'], 1);
            lemma_alts_read(d, all, seq![], s, p + 1, v, true, lo, hot);
            let (d1, inner, u) = alternates(d, seq![], s, p + 1, true)->Ok_0;
            assert(skip_white(s, u) == u);
            lemma_more(d1, all, 'r', inner);
            let id = d1.rules.len() as int;
            assert(e == more(d1, 'r', inner));
            assert(row == seq![rule_ref(id)]);
            assert(kept(d1, e, all));
            lemma_keeps_less(rs, d, d1, e, all);
            let rows = lemma_alts_means(d, all, seq![], s, p + 1, v, true, lo, hot, rs);
            assert(inner =~= barred(rows));
            assert(rs[id] == e.rules[id]);
            lemma_rule_means(rs, all, id, rows, v);
            assert forall|text: Seq<u32>| #[trigger] spans(rs, row, text) <==> in_language(rs, id, text) by {
                lemma_ref(rs, id, text);
            }
        },
    }
}

/// Whether each of some rows reads what one of some alternates reads, in order.
pub open spec fn as_rows(rs: Seq<Seq<Elem>>, all: Seq<Seq<char>>, rows: Seq<Seq<Elem>>, v: Seq<Seq<Item>>) -> bool {
    &&& rows.len() == v.len()
    &&& rows.len() > 0
    &&& flat_all(rows)
    &&& forall|j: int| 0 <= j < rows.len() ==> as_items(rs, all, #[trigger] rows[j], v[j])
}

/// A rule of rows reads what their alternates read.
pub proof fn lemma_rule_means(
    rs: Seq<Seq<Elem>>,
    all: Seq<Seq<char>>,
    id: int,
    rows: Seq<Seq<Elem>>,
    v: Seq<Seq<Item>>,
)
    requires
        0 <= id < rs.len(),
        rs[id] == barred(rows),
        as_rows(rs, all, rows, v),
    ensures
        as_alts(rs, all, id, v),
{
    assert forall|text: Seq<u32>|
        (#[trigger] in_language(rs, id, text) ==> alts_mean(rs, all, v, true, text)) && (alts_mean(
            rs,
            all,
            v,
            false,
            text,
        ) ==> in_language(rs, id, text)) by {
        rules_read_what_a_row_reads(rs, id, rows, text);
        if in_language(rs, id, text) {
            let j = choose|j: int| 0 <= j < rows.len() && spans(rs, #[trigger] rows[j], text);
            assert(as_items(rs, all, rows[j], v[j]));
            assert(items_mean(rs, all, v[j], true, text));
        }
        if alts_mean(rs, all, v, false, text) {
            let j = choose|j: int| 0 <= j < v.len() && items_mean(rs, all, #[trigger] v[j], false, text);
            assert(as_items(rs, all, rows[j], v[j]));
            assert(spans(rs, rows[j], text));
        }
    }
}

/// A marked atom's row reads what the item reads.
proof fn lemma_item_means(
    d1: Draft,
    all: Seq<Seq<char>>,
    row: Seq<Elem>,
    s: Seq<char>,
    r: int,
    i: Item,
    rs: Seq<Seq<Elem>>,
)
    requires
        numbered(d1, all),
        flat(row),
        row.len() > 0 ==> parts(row[0]),
        as_piece(rs, all, row, i.piece),
        0 <= r,
        match i.op {
            Some(c) => r < s.len() && s[r] == c && (c == '?' || c == '*' || c == '+'),
            None => r >= s.len() || (s[r] != '*' && s[r] != '+' && s[r] != '?' && s[r] != '{'),
        },
        postfix(d1, row, s, r) matches Ok((e, _, _)) ==> keeps_new(rs, d1, e),
    ensures
        postfix(d1, row, s, r) matches Ok((_, out, _)) && as_item(rs, all, out, i) && (out.len() > 0 ==> parts(out[0])),
{
    match i.op {
        None => {},
        Some(c) => {
            marks_say_how_often(d1, all, row, s, r, rs, seq![]);
            let (e, out, q) = postfix(d1, row, s, r)->Ok_0;
            let id = out[0]->RuleRef_0 as int;
            assert(out =~= seq![rule_ref(id)]);
            assert forall|text: Seq<u32>|
                (#[trigger] spans(rs, out, text) ==> item_means(rs, all, i, true, text)) && (item_means(
                    rs,
                    all,
                    i,
                    false,
                    text,
                ) ==> spans(rs, out, text)) by {
                lemma_ref(rs, id, text);
                marks_say_how_often(d1, all, row, s, r, rs, text);
                if spans(rs, out, text) {
                    let k = choose|k: nat| may_repeat(c, k) && #[trigger] is_times(rs, row, k, text);
                    let ts = choose|ts: Seq<Seq<u32>>| ts.len() == k && #[trigger] made_of(rs, row, ts, text);
                    assert forall|j: int| 0 <= j < ts.len() implies piece_means(rs, all, i.piece, true, #[trigger] ts[j]) by {
                        assert(spans(rs, row, ts[j]));
                    }
                    assert(ts.flatten() == text && may_repeat(c, ts.len()));
                }
                if item_means(rs, all, i, false, text) {
                    let ts = choose|ts: Seq<Seq<u32>>| #[trigger]
                        ts.flatten() == text && may_repeat(c, ts.len()) && forall|j: int|
                            0 <= j < ts.len() ==> piece_means(rs, all, i.piece, false, #[trigger] ts[j]);
                    assert forall|j: int| 0 <= j < ts.len() implies spans(rs, row, #[trigger] ts[j]) by {
                        assert(piece_means(rs, all, i.piece, false, ts[j]));
                    }
                    assert(made_of(rs, row, ts, text));
                    assert(may_repeat(c, ts.len()) && is_times(rs, row, ts.len(), text));
                }
            }
        },
    }
}

proof fn lemma_items_cons(
    rs: Seq<Seq<Elem>>,
    all: Seq<Seq<char>>,
    a: Seq<Elem>,
    b: Seq<Elem>,
    v: Seq<Item>,
)
    requires
        v.len() > 0,
        flat(a),
        flat(b),
        b.len() > 0 ==> parts(b[0]),
        as_item(rs, all, a, v[0]),
        as_items(rs, all, b, v.drop_first()),
    ensures
        as_items(rs, all, a + b, v),
{
    let rest = v.drop_first();
    assert forall|text: Seq<u32>|
        (#[trigger] spans(rs, a + b, text) ==> items_mean(rs, all, v, true, text)) && (items_mean(
            rs,
            all,
            v,
            false,
            text,
        ) ==> spans(rs, a + b, text)) by {
        lemma_spans_add(rs, a, b, text);
        if spans(rs, a + b, text) {
            let k = choose|k: int| #[trigger] both(rs, a, b, text, k);
            assert(item_means(rs, all, v[0], true, text.take(k)));
            assert(items_mean(rs, all, rest, true, text.skip(k)));
        }
        if items_mean(rs, all, v, false, text) {
            let k = choose|k: int|
                #![trigger text.take(k)]
                0 <= k <= text.len() && item_means(rs, all, v[0], false, text.take(k)) && items_mean(
                    rs,
                    all,
                    rest,
                    false,
                    text.skip(k),
                );
            assert(spans(rs, a, text.take(k)));
            assert(spans(rs, b, text.skip(k)));
            assert(both(rs, a, b, text, k));
        }
    }
}

/// The first item is read, and its row reads what the item reads.
proof fn lemma_first_means(
    d: Draft,
    all: Seq<Seq<char>>,
    out: Seq<Elem>,
    s: Seq<char>,
    p0: int,
    p: int,
    v: Seq<Item>,
    g: bool,
    lo: int,
    hot: bool,
    rs: Seq<Seq<Elem>>,
) -> (r: (Draft, Seq<Elem>, int))
    requires
        v.len() > 0,
        numbered(d, all),
        all.len() <= lo <= d.rules.len() <= rs.len(),
        items_ok(v, all, hot),
        stands(s, p, items_text(v)),
        p0 == p || (p0 == p + 1 && p < s.len()),
        closes(s, p + items_text(v).len(), g),
        sequence(d, out, s, p0, g) matches Ok((f, _, _)) ==> keeps_new(rs, d, f),
    ensures
        sequence(d, out, s, p0, g) == sequence(r.0, out + r.1, s, r.2, g),
        ({
            let p1 = p + item_text(v[0]).len();
            &&& stands(s, p1, items_text(v.drop_first()))
            &&& p1 + items_text(v.drop_first()).len() == p + items_text(v).len()
            &&& r.2 == p1 || (r.2 == p1 + 1 && p1 < s.len())
        }),
        items_ok(v.drop_first(), all, hot),
        kept(d, r.0, all),
        sequence(d, out, s, p0, g) matches Ok((f, _, _)) && keeps_new(rs, r.0, f),
        r.0.rules.len() <= rs.len(),
        flat(r.1),
        r.1.len() > 0 ==> parts(r.1[0]),
        as_item(rs, all, r.1, v[0]),
    decreases v, 0nat,
{
    let i = v[0];
    let rest = v.drop_first();
    let a = piece_text(i.piece);
    let o = op_text(i.op);
    lemma_items_first(v, all, hot);
    lemma_stands_parts(s, p, item_text(i), items_text(rest));
    lemma_stands_parts(s, p, seq![' '] + a, o);
    lemma_stands_parts(s, p, seq![' '], a);
    lemma_stands_at(s, p, seq![' '], 0);
    lemma_piece_opens(i.piece, all, hot);
    lemma_stands_at(s, p + 1, a, 0);
    let q = p + 1 + a.len();
    let p1 = p + item_text(i).len();
    assert(p1 == q + o.len());
    let r = lemma_between(all, s, q, i.op, rest, g, hot);
    lemma_piece(d, all, s, p + 1, i.piece, lo, hot);
    let (d1, row1, _) = atom(d, s, p + 1)->Ok_0;
    assert(skip_white(s, p + 1) == p + 1);
    assert(skip_white(s, p0) == p + 1);
    lemma_op(d, d1, all, row1, s, r, i, lo, hot);
    let (d2, row2, t) = postfix(d1, row1, s, r)->Ok_0;
    lemma_step(d, out, s, p0, p + 1, d1, row1, q, r, d2, row2, t, g);
    lemma_first_keeps(d, d1, d2, all, out + row2, row1, s, r, t, p1, i, rest, g, lo, hot, rs);
    lemma_piece_means(d, all, s, p + 1, i.piece, lo, hot, rs);
    lemma_item_means(d1, all, row1, s, r, i, rs);
    (d2, row2, t)
}

proof fn lemma_first_keeps(
    d: Draft,
    d1: Draft,
    d2: Draft,
    all: Seq<Seq<char>>,
    out: Seq<Elem>,
    row1: Seq<Elem>,
    s: Seq<char>,
    r: int,
    t: int,
    p1: int,
    i: Item,
    rest: Seq<Item>,
    g: bool,
    lo: int,
    hot: bool,
    rs: Seq<Seq<Elem>>,
)
    requires
        kept(d, d1, all),
        kept(d, d2, all),
        all.len() <= lo <= d.rules.len(),
        flat(row1),
        0 <= r,
        match i.op {
            Some(c) => r < s.len() && s[r] == c && (c == '?' || c == '*' || c == '+'),
            None => r >= s.len() || (s[r] != '*' && s[r] != '+' && s[r] != '?' && s[r] != '{'),
        },
        postfix(d1, row1, s, r) matches Ok((e, _, _)) && e == d2,
        items_ok(rest, all, hot),
        stands(s, p1, items_text(rest)),
        t == p1 || (t == p1 + 1 && p1 < s.len()),
        closes(s, p1 + items_text(rest).len(), g),
        sequence(d2, out, s, t, g) matches Ok((f, _, _)) ==> keeps_new(rs, d, f),
    ensures
        sequence(d2, out, s, t, g) matches Ok((f, _, _)) && keeps_new(rs, d2, f),
        keeps_new(rs, d, d1),
        keeps_new(rs, d1, d2),
{
    let others0 = lemma_items_read(d2, all, out, s, t, p1, rest, g, lo, hot);
    let f = sequence(d2, out, s, t, g)->Ok_0.0;
    lemma_keeps_less(rs, d, d2, f, all);
    lemma_op_keeps(d1, all, row1, s, r, i);
    lemma_keeps_less(rs, d, d1, d2, all);
}

/// The row of items reads what the items read.
proof fn lemma_items_means(
    d: Draft,
    all: Seq<Seq<char>>,
    out: Seq<Elem>,
    s: Seq<char>,
    p0: int,
    p: int,
    v: Seq<Item>,
    g: bool,
    lo: int,
    hot: bool,
    rs: Seq<Seq<Elem>>,
) -> (row: Seq<Elem>)
    requires
        numbered(d, all),
        all.len() <= lo <= d.rules.len() <= rs.len(),
        items_ok(v, all, hot),
        stands(s, p, items_text(v)),
        p0 == p || (p0 == p + 1 && p < s.len()),
        closes(s, p + items_text(v).len(), g),
        sequence(d, out, s, p0, g) matches Ok((f, _, _)) ==> keeps_new(rs, d, f),
    ensures
        sequence(d, out, s, p0, g) matches Ok((_, whole, _)) && whole == out + row,
        flat(row),
        row.len() > 0 ==> parts(row[0]),
        as_items(rs, all, row, v),
    decreases v, 1nat,
{
    if v.len() == 0 {
        let row: Seq<Elem> = seq![];
        lemma_no_items(d, out, s, p0, p, g);
        assert(out + row =~= out);
        row
    } else {
        let rest = v.drop_first();
        let (d2, row2, t) = lemma_first_means(d, all, out, s, p0, p, v, g, lo, hot, rs);
        let others = lemma_items_means(d2, all, out + row2, s, t, p + item_text(v[0]).len(), rest, g, lo, hot, rs);
        let row = row2 + others;
        assert((out + row2) + others =~= out + row);
        lemma_items_cons(rs, all, row2, others, v);
        assert forall|k: int| 0 <= k < row.len() implies #[trigger] row[k] != Elem::End && row[k] != Elem::Alt by {
            if k < row2.len() {
                assert(row[k] == row2[k]);
            } else {
                assert(row[k] == others[k - row2.len()]);
            }
        }
        if row.len() > 0 {
            assert(row[0] == if row2.len() > 0 {
                row2[0]
            } else {
                others[0]
            });
        }
        row
    }
}

proof fn lemma_op_keeps(d1: Draft, all: Seq<Seq<char>>, row: Seq<Elem>, s: Seq<char>, r: int, i: Item)
    requires
        numbered(d1, all),
        flat(row),
        0 <= r,
        match i.op {
            Some(c) => r < s.len() && s[r] == c && (c == '?' || c == '*' || c == '+'),
            None => r >= s.len() || (s[r] != '*' && s[r] != '+' && s[r] != '?' && s[r] != '{'),
        },
    ensures
        postfix(d1, row, s, r) matches Ok((d2, _, _)) && kept(d1, d2, all),
{
    match i.op {
        None => {},
        Some(c) => {
            crate::filter::shapes::lemma_repeat_keeps(d1, all, row, c);
        },
    }
}

/// The rows of alternates read what the alternates read.
proof fn lemma_alts_means(
    d: Draft,
    all: Seq<Seq<char>>,
    out: Seq<Elem>,
    s: Seq<char>,
    p: int,
    v: Seq<Seq<Item>>,
    g: bool,
    lo: int,
    hot: bool,
    rs: Seq<Seq<Elem>>,
) -> (rows: Seq<Seq<Elem>>)
    requires
        numbered(d, all),
        all.len() <= lo <= d.rules.len() <= rs.len(),
        alts_ok(v, all, hot),
        unended(out),
        stands(s, p, alts_text(v)),
        ends_at(s, p + alts_text(v).len(), g),
        alternates(d, out, s, p, g) matches Ok((f, _, _)) ==> keeps_new(rs, d, f),
    ensures
        alternates(d, out, s, p, g) matches Ok((_, row, _)) && row == out + barred(rows),
        as_rows(rs, all, rows, v),
    decreases v, 2nat,
{
    let w = items_text(v[0]);
    if v.len() == 1 {
        let r0 = lemma_items_read(d, all, seq![], s, p, p, v[0], g, lo, hot);
        let (f, row1, q) = sequence(d, seq![], s, p, g)->Ok_0;
        assert(skip_white(s, q) == q);
        assert(alternates(d, out, s, p, g) == Ok::<(Draft, Seq<Elem>, int), GrammarError>(
            (f, (out + row1).push(Elem::End), q),
        ));
        let r1 = lemma_items_means(d, all, seq![], s, p, p, v[0], g, lo, hot, rs);
        assert(row1 =~= r1);
        let rows = seq![r1];
        assert(barred(rows) == r1.push(Elem::End));
        assert((out + row1).push(Elem::End) =~= out + barred(rows));
        assert(as_items(rs, all, rows[0], v[0]));
        rows
    } else {
        let rest = v.drop_first();
        lemma_stands_parts(s, p, w + seq![' ', '|'], alts_text(rest));
        lemma_stands_parts(s, p, w, seq![' ', '|']);
        let e1 = p + w.len();
        lemma_stands_at(s, e1, seq![' ', '|'], 0);
        lemma_stands_at(s, e1, seq![' ', '|'], 1);
        let r0 = lemma_items_read(d, all, seq![], s, p, p, v[0], g, lo, hot);
        let (d1, row1, q) = sequence(d, seq![], s, p, g)->Ok_0;
        assert(row1 =~= r0);
        assert(q == e1 + 1);
        assert(skip_white(s, q) == q);
        let out1 = (out + row1).push(Elem::Alt);
        assert(unended(out1));
        lemma_alts_read(d1, all, out1, s, q + 1, rest, g, lo, hot);
        let (f, row, _) = alternates(d1, out1, s, q + 1, g)->Ok_0;
        assert(alternates(d, out, s, p, g) == alternates(d1, out1, s, q + 1, g));
        lemma_keeps_less(rs, d, d1, f, all);
        let r1 = lemma_items_means(d, all, seq![], s, p, p, v[0], g, lo, hot, rs);
        assert(row1 =~= r1);
        let others = lemma_alts_means(d1, all, out1, s, q + 1, rest, g, lo, hot, rs);
        let rows = seq![r1] + others;
        assert(rows.drop_first() =~= others);
        assert(barred(rows) == r1.push(Elem::Alt) + barred(others));
        assert(out1 + barred(others) =~= out + barred(rows));
        assert forall|j: int| 0 <= j < rows.len() implies as_items(rs, all, #[trigger] rows[j], v[j]) by {
            if j > 0 {
                assert(rows[j] == others[j - 1]);
                assert(v[j] == rest[j - 1]);
            }
        }
        assert forall|j: int| 0 <= j < rows.len() implies flat(#[trigger] rows[j]) by {
            if j > 0 {
                assert(rows[j] == others[j - 1]);
            }
        }
        rows
    }
}

/// Whether rule `j` was made of a body when the draft was `d`, and what was made then is still
/// there.
pub open spec fn made_at(rs: Seq<Seq<Elem>>, all: Seq<Seq<char>>, j: int, body: Seq<char>, d: Draft) -> bool {
    &&& numbered(d, all)
    &&& 0 <= j < rs.len()
    &&& alternates(d, seq![], body, 0, false) matches Ok((e, row, _)) && kept(d, e, all) && rs[j] == row
        && e.rules.len() <= rs.len() && forall|i: int|
        d.rules.len() <= i < e.rules.len() ==> #[trigger] rs[i] == e.rules[i]
}

/// Whether rule `j` was made of a body.
pub open spec fn made(rs: Seq<Seq<Elem>>, all: Seq<Seq<char>>, j: int, body: Seq<char>) -> bool {
    exists|d: Draft| #[trigger] made_at(rs, all, j, body, d)
}

/// A drawn body leaves the rules that there are.
proof fn lemma_drawn_kept(d: Draft, r: Row, all: Seq<Seq<char>>, rank: spec_fn(Seq<char>) -> nat)
    requires
        numbered(d, all),
        drawn(r, all, rank),
    ensures
        alternates(d, seq![], seq![' '] + r.1, 0, false) matches Ok((e, row, _)) && kept(d, e, all) && shaped(row),
{
    let s = seq![' '] + r.1;
    if r.1.len() == 0 {
        assert(skip_white(s, 1) == 1);
        assert(skip_white(s, 0) == 1);
        assert(sequence(d, seq![], s, 0, false) == Ok::<(Draft, Seq<Elem>, int), GrammarError>((d, seq![], 1)));
        let row = seq![Elem::End];
        assert(Seq::<Elem>::empty() + Seq::<Elem>::empty() =~= Seq::<Elem>::empty());
        assert(Seq::<Elem>::empty().push(Elem::End) =~= row);
        assert(alternates(d, seq![], s, 0, false) == Ok::<(Draft, Seq<Elem>, int), GrammarError>((d, row, 1)));
    } else {
        let v = choose|v: Seq<Seq<Item>>| #[trigger] drawn_as(r, v, all, rank);
        let hot = !alts_ok(v, all, false);
        assert(s.subrange(0, s.len() as int) =~= s);
        assert(stands(s, 0, alts_text(v)));
        lemma_alts_read(d, all, seq![], s, 0, v, false, d.rules.len() as int, hot);
    }
}

/// Each of the rules compiled so far was made of its body.
proof fn lemma_made(rules: Seq<Row>, k: int, rank: spec_fn(Seq<char>) -> nat)
    requires
        own_names(names_of(rules)),
        forall|i: int| 0 <= i < rules.len() ==> drawn(#[trigger] rules[i], names_of(rules), rank),
        0 <= k <= rules.len(),
    ensures
        compiled(defs_of(rules), k) matches Ok(d) && numbered(d, names_of(rules)) && forall|j: int|
            0 <= j < k ==> #[trigger] made(d.rules, names_of(rules), j, seq![' '] + rules[j].1),
    decreases k,
{
    let all = names_of(rules);
    let defs = defs_of(rules);
    let hots = lemma_rules_compiled(rules, k, rank);
    if k > 0 {
        let w = k - 1;
        lemma_made(rules, w, rank);
        let d = compiled(defs, w)->Ok_0;
        assert forall|i: int| 0 <= i < all.len() implies #[trigger] d.names[i] == all[i] by {}
        lemma_own_index(all, w);
        lemma_name_index_stays(all, d.names, all[w]);
        let body = seq![' '] + rules[w].1;
        assert(defs[w] == (rules[w].0, body));
        assert(interned(d, defs[w].0) == (d, w));
        assert(drawn(rules[w], all, rank));
        lemma_drawn_kept(d, rules[w], all, rank);
        let (e, row, _) = alternates(d, seq![], body, 0, false)->Ok_0;
        let f = defined(e, w, row);
        assert(compiled(defs, k) == Ok::<Draft, GrammarError>(f));
        assert forall|j: int| 0 <= j < k implies #[trigger] made(f.rules, all, j, seq![' '] + rules[j].1) by {
            if j < w {
                let b = seq![' '] + rules[j].1;
                assert(made(d.rules, all, j, b));
                let x = choose|x: Draft| #[trigger] made_at(d.rules, all, j, b, x);
                let y = alternates(x, seq![], b, 0, false)->Ok_0.0;
                assert(f.rules[j] == d.rules[j]);
                assert forall|i: int| x.rules.len() <= i < y.rules.len() implies #[trigger] f.rules[i] == y.rules[i] by {
                    assert(d.rules[i] == y.rules[i]);
                    assert(e.rules[i] == d.rules[i]);
                }
                assert(made_at(f.rules, all, j, b, x));
            } else {
                assert(made_at(f.rules, all, j, body, d));
            }
        }
    }
}

/// A rule of a written grammar reads what its body says: one of its alternates, item by item, a
/// text as itself, a name as its rule, a group as one of its alternates, and a marked atom as
/// often as the mark allows.
pub proof fn written_rules_mean_what_they_say(
    rules: Seq<Row>,
    rank: spec_fn(Seq<char>) -> nat,
    root: int,
    j: int,
    v: Seq<Seq<Item>>,
    hot: bool,
)
    requires
        forall|i: int| 0 <= i < rules.len() ==> clean(#[trigger] rules[i]),
        own_names(names_of(rules)),
        forall|i: int| 0 <= i < rules.len() ==> drawn(#[trigger] rules[i], names_of(rules), rank),
        0 <= root < rules.len(),
        rules[root].0 == seq!['r', 'o', 'o', 't'],
        0 <= j < rules.len(),
        seq![' '] + rules[j].1 == alts_text(v),
        alts_ok(v, names_of(rules), hot),
    ensures
        grammar_of(rules_text(rules)) matches Ok((rs, r)) && r == root && rules.len() <= rs.len() && (rs.len()
            <= usize::MAX ==> as_alts(rs, names_of(rules), j, v)),
{
    let all = names_of(rules);
    let n = rules.len() as int;
    written_rules_are_read(rules);
    lemma_made(rules, n, rank);
    let d = compiled(defs_of(rules), n)->Ok_0;
    assert forall|i: int| 0 <= i < all.len() implies #[trigger] d.names[i] == all[i] by {}
    lemma_own_index(all, root);
    lemma_name_index_stays(all, d.names, all[root]);
    let rs = d.rules;
    assert(grammar_of(rules_text(rules)) == Ok::<(Seq<Seq<Elem>>, int), GrammarError>((rs, root)));
    if rs.len() <= usize::MAX {
        let s = seq![' '] + rules[j].1;
        assert(made(rs, all, j, s));
        let x = choose|x: Draft| #[trigger] made_at(rs, all, j, s, x);
        assert(s.subrange(0, s.len() as int) =~= s);
        assert(stands(s, 0, alts_text(v)));
        assert(keeps_new(rs, x, alternates(x, seq![], s, 0, false)->Ok_0.0));
        let rows = lemma_alts_means(x, all, seq![], s, 0, v, false, x.rules.len() as int, hot, rs);
        assert(Seq::<Elem>::empty() + barred(rows) =~= barred(rows));
        lemma_rule_means(rs, all, j, rows, v);
    }
}

} // verus!
