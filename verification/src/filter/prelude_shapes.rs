//! The rules that every schema's grammar starts with keep the order.
use vstd::prelude::*;
use crate::filter::drafts::{
    atom_end, lemma_atom_class, lemma_class_char, lemma_class_close, lemma_class_escape, lemma_class_range,
};
use crate::filter::forms::{lemma_stands_at, stands};
use crate::filter::json_schema::{
    joined, list_body, lit_chars, lit_of, prelude, Row, ARRAY_RULE, BOOLEAN_RULE, INTEGER_RULE, NULL_RULE, NUMBER_RULE, OBJECT_RULE,
    STRING_RULE, VALUE_RULE, WS_RULE,
};
use crate::filter::constants::lemma_joined_first;
use crate::filter::prelude::preludes_are_well_formed;
use crate::filter::reading::clean;
use crate::filter::orders::{drawn, drawn_as, names_below};
use crate::filter::shapes::{
    alts_ok, alts_text, class_ok, firm_item, firm_items, headed, item_ok, item_text, items_ok, items_text, op_text,
    piece_ok, piece_text, Item, Piece,
};
use crate::filter::syntax::{name_char, name_index};

verus! {

/// A text as an item.
pub open spec fn lit(t: Seq<char>) -> Item {
    Item { piece: Piece::Lit(t), op: None }
}

/// A rule's name as an item.
pub open spec fn name(n: Seq<char>) -> Item {
    Item { piece: Piece::Name(n), op: None }
}

/// Items with one before them.
pub open spec fn cons(i: Item, rest: Seq<Item>) -> Seq<Item> {
    seq![i] + rest
}

/// Alternates with one before them.
pub open spec fn or(x: Seq<Item>, rest: Seq<Seq<Item>>) -> Seq<Seq<Item>> {
    seq![x] + rest
}

/// No items.
pub open spec fn nil() -> Seq<Item> {
    seq![]
}

/// One alternate.
pub open spec fn one(x: Seq<Item>) -> Seq<Seq<Item>> {
    seq![x]
}

/// A group as an item.
pub open spec fn group(v: Seq<Seq<Item>>, op: Option<char>) -> Item {
    Item { piece: Piece::Group(v), op }
}

/// A class as an item.
pub open spec fn set_of(w: Seq<char>, op: Option<char>) -> Item {
    Item { piece: Piece::Class(w), op }
}

pub proof fn lemma_nil(all: Seq<Seq<char>>, hot: bool)
    ensures
        items_text(nil()) == Seq::<char>::empty(),
        items_ok(nil(), all, hot),
{
}

pub proof fn lemma_cons(i: Item, rest: Seq<Item>, all: Seq<Seq<char>>, hot: bool)
    ensures
        items_text(cons(i, rest)) == item_text(i) + items_text(rest),
        items_ok(cons(i, rest), all, hot) == (item_ok(i, all, hot) && items_ok(rest, all, hot)),
        cons(i, rest).len() == rest.len() + 1,
        cons(i, rest)[0] == i,
        firm_item(i) || firm_items(rest) ==> firm_items(cons(i, rest)),
{
    let v = cons(i, rest);
    assert(v.drop_first() =~= rest);
    reveal_with_fuel(items_text, 2);
    reveal_with_fuel(items_ok, 2);
    if firm_item(i) {
        assert(firm_item(v[0]));
    } else if firm_items(rest) {
        let j = choose|j: int| 0 <= j < rest.len() && firm_item(#[trigger] rest[j]);
        assert(firm_item(v[j + 1]));
    }
}

pub proof fn lemma_one(x: Seq<Item>, all: Seq<Seq<char>>, hot: bool)
    ensures
        alts_text(one(x)) == items_text(x),
        alts_ok(one(x), all, hot) == items_ok(x, all, hot),
        x.len() > 0 && firm_item(x[0]) ==> headed(one(x)),
        firm_items(x) ==> forall|k: int| 0 <= k < one(x).len() ==> firm_items(#[trigger] one(x)[k]),
{
    reveal_with_fuel(alts_text, 2);
    reveal_with_fuel(alts_ok, 2);
}

pub proof fn lemma_or(x: Seq<Item>, rest: Seq<Seq<Item>>, all: Seq<Seq<char>>, hot: bool)
    requires
        rest.len() > 0,
    ensures
        alts_text(or(x, rest)) == items_text(x) + seq![' ', '|'] + alts_text(rest),
        alts_ok(or(x, rest), all, hot) == (items_ok(x, all, hot) && alts_ok(rest, all, hot)),
        x.len() > 0 && firm_item(x[0]) && headed(rest) ==> headed(or(x, rest)),
        firm_items(x) && (forall|k: int| 0 <= k < rest.len() ==> firm_items(#[trigger] rest[k])) ==> forall|k: int|
            0 <= k < or(x, rest).len() ==> firm_items(#[trigger] or(x, rest)[k]),
        or(x, rest).len() == rest.len() + 1,
{
    let v = or(x, rest);
    assert(v.drop_first() =~= rest);
    reveal_with_fuel(alts_text, 2);
    reveal_with_fuel(alts_ok, 2);
    if x.len() > 0 && firm_item(x[0]) && headed(rest) {
        assert forall|k: int| 0 <= k < v.len() implies (#[trigger] v[k]).len() > 0 && firm_item(v[k][0]) by {
            if k > 0 {
                assert(v[k] == rest[k - 1]);
            }
        }
    }
    if firm_items(x) && (forall|k: int| 0 <= k < rest.len() ==> firm_items(#[trigger] rest[k])) {
        assert forall|k: int| 0 <= k < v.len() implies firm_items(#[trigger] v[k]) by {
            if k > 0 {
                assert(v[k] == rest[k - 1]);
            }
        }
    }
}

pub proof fn lemma_lit_item(t: Seq<char>, all: Seq<Seq<char>>, hot: bool)
    ensures
        item_text(lit(t)) == seq![' '] + lit_of(t),
        item_ok(lit(t), all, hot),
{
    reveal_with_fuel(item_text, 2);
    reveal_with_fuel(piece_text, 2);
    reveal_with_fuel(item_ok, 2);
    reveal_with_fuel(piece_ok, 2);
    assert((seq![' '] + lit_of(t)) + op_text(None) =~= seq![' '] + lit_of(t));
}

pub proof fn lemma_name_item(n: Seq<char>, all: Seq<Seq<char>>)
    requires
        n.len() > 0,
        forall|i: int| 0 <= i < n.len() ==> name_char(#[trigger] n[i]),
        name_index(all, n) >= 0,
    ensures
        item_text(name(n)) == seq![' '] + n,
        item_ok(name(n), all, true),
{
    reveal_with_fuel(item_text, 2);
    reveal_with_fuel(piece_text, 2);
    reveal_with_fuel(item_ok, 2);
    reveal_with_fuel(piece_ok, 2);
    assert((seq![' '] + n) + op_text(None) =~= seq![' '] + n);
}

pub proof fn lemma_class_item(w: Seq<char>, op: Option<char>, all: Seq<Seq<char>>, hot: bool)
    requires
        class_ok(w),
        op matches Some(c) ==> c == '?' || c == '*' || c == '+',
    ensures
        item_text(set_of(w, op)) == seq![' '] + (seq!['['] + w + seq![']']) + op_text(op),
        item_ok(set_of(w, op), all, hot),
{
    reveal_with_fuel(item_text, 2);
    reveal_with_fuel(piece_text, 2);
    reveal_with_fuel(item_ok, 2);
    reveal_with_fuel(piece_ok, 2);
}

pub proof fn lemma_opt_lit(t: Seq<char>, all: Seq<Seq<char>>, hot: bool)
    ensures
        ({
            let i = Item { piece: Piece::Lit(t), op: Some('?') };
            item_text(i) == seq![' '] + lit_of(t) + seq!['?'] && item_ok(i, all, hot)
        }),
{
    reveal_with_fuel(item_text, 2);
    reveal_with_fuel(piece_text, 2);
    reveal_with_fuel(item_ok, 2);
    reveal_with_fuel(piece_ok, 2);
}

pub proof fn lemma_group_item(v: Seq<Seq<Item>>, op: Option<char>, all: Seq<Seq<char>>, hot: bool)
    requires
        alts_ok(v, all, hot),
        op matches Some(c) ==> c == '?' || ((c == '*' || c == '+') && forall|k: int|
            0 <= k < v.len() ==> firm_items(#[trigger] v[k])),
    ensures
        item_text(group(v, op)) == seq![' '] + (seq!['('] + alts_text(v) + seq![' ', ')']) + op_text(op),
        item_ok(group(v, op), all, hot),
{
    reveal_with_fuel(item_text, 2);
    reveal_with_fuel(piece_text, 2);
    reveal_with_fuel(item_ok, 2);
    reveal_with_fuel(piece_ok, 2);
}

/// A text without quotes, backslashes and line ends is written as it is.
pub proof fn lemma_lit_plain(t: Seq<char>)
    requires
        forall|i: int| 0 <= i < t.len() ==> #[trigger] t[i] != '"' && t[i] != '\\' && t[i] != '\n',
    ensures
        lit_chars(t) == t,
    decreases t.len(),
{
    if t.len() > 0 {
        let u = t.drop_last();
        assert forall|i: int| 0 <= i < u.len() implies #[trigger] u[i] != '"' && u[i] != '\\' && u[i] != '\n' by {
            assert(u[i] == t[i]);
        }
        lemma_lit_plain(u);
        assert(t[t.len() - 1] == t.last());
        assert(lit_chars(t) =~= t);
    } else {
        assert(lit_chars(t) =~= t);
    }
}

/// The classes of the rules are read as such.
proof fn lemma_classes()
    ensures
        class_ok(seq![' ', '\\', 't', '\\', 'n']),
        class_ok(seq!['^', '"', '\\', '\\']),
        class_ok(seq!['"', '\\', '\\', '/', 'b', 'f', 'n', 'r', 't']),
        class_ok(seq!['0', '-', '9', 'a', '-', 'f', 'A', '-', 'F']),
        class_ok(seq!['1', '-', '9']),
        class_ok(seq!['0', '-', '9']),
        class_ok(seq!['e', 'E']),
        class_ok(seq!['-', '+']),
{
    assert(class_ok(seq![' ', '\\', 't', '\\', 'n'])) by {
        let c = seq![' ', '\\', 't', '\\', 'n'];
        let w = seq!['['] + c + seq![']'];
        assert forall|s: Seq<char>, p: int| #[trigger] stands(s, p, w) implies atom_end(s, p) == Some(p + 5 + 2) by {
            lemma_spread(s, p, w);
            lemma_atom_class(s, p);
            lemma_class_char(s, p + 1, true);
            lemma_class_escape(s, p + 2, false);
            lemma_class_escape(s, p + 4, false);
            lemma_class_close(s, p + 6);
        }
    }
    assert(class_ok(seq!['^', '"', '\\', '\\'])) by {
        let c = seq!['^', '"', '\\', '\\'];
        let w = seq!['['] + c + seq![']'];
        assert forall|s: Seq<char>, p: int| #[trigger] stands(s, p, w) implies atom_end(s, p) == Some(p + 4 + 2) by {
            lemma_spread(s, p, w);
            lemma_atom_class(s, p);
            lemma_class_char(s, p + 2, true);
            lemma_class_escape(s, p + 3, false);
            lemma_class_close(s, p + 5);
        }
    }
    assert(class_ok(seq!['"', '\\', '\\', '/', 'b', 'f', 'n', 'r', 't'])) by {
        let c = seq!['"', '\\', '\\', '/', 'b', 'f', 'n', 'r', 't'];
        let w = seq!['['] + c + seq![']'];
        assert forall|s: Seq<char>, p: int| #[trigger] stands(s, p, w) implies atom_end(s, p) == Some(p + 9 + 2) by {
            lemma_spread(s, p, w);
            lemma_atom_class(s, p);
            lemma_class_char(s, p + 1, true);
            lemma_class_escape(s, p + 2, false);
            lemma_class_char(s, p + 4, false);
            lemma_class_char(s, p + 5, false);
            lemma_class_char(s, p + 6, false);
            lemma_class_char(s, p + 7, false);
            lemma_class_char(s, p + 8, false);
            lemma_class_char(s, p + 9, false);
            lemma_class_close(s, p + 10);
        }
    }
    assert(class_ok(seq!['0', '-', '9', 'a', '-', 'f', 'A', '-', 'F'])) by {
        let c = seq!['0', '-', '9', 'a', '-', 'f', 'A', '-', 'F'];
        let w = seq!['['] + c + seq![']'];
        assert forall|s: Seq<char>, p: int| #[trigger] stands(s, p, w) implies atom_end(s, p) == Some(p + 9 + 2) by {
            lemma_spread(s, p, w);
            lemma_atom_class(s, p);
            lemma_class_range(s, p + 1, true);
            lemma_class_range(s, p + 4, false);
            lemma_class_range(s, p + 7, false);
            lemma_class_close(s, p + 10);
        }
    }
    assert(class_ok(seq!['1', '-', '9'])) by {
        let c = seq!['1', '-', '9'];
        let w = seq!['['] + c + seq![']'];
        assert forall|s: Seq<char>, p: int| #[trigger] stands(s, p, w) implies atom_end(s, p) == Some(p + 3 + 2) by {
            lemma_spread(s, p, w);
            lemma_atom_class(s, p);
            lemma_class_range(s, p + 1, true);
            lemma_class_close(s, p + 4);
        }
    }
    assert(class_ok(seq!['0', '-', '9'])) by {
        let c = seq!['0', '-', '9'];
        let w = seq!['['] + c + seq![']'];
        assert forall|s: Seq<char>, p: int| #[trigger] stands(s, p, w) implies atom_end(s, p) == Some(p + 3 + 2) by {
            lemma_spread(s, p, w);
            lemma_atom_class(s, p);
            lemma_class_range(s, p + 1, true);
            lemma_class_close(s, p + 4);
        }
    }
    assert(class_ok(seq!['e', 'E'])) by {
        let c = seq!['e', 'E'];
        let w = seq!['['] + c + seq![']'];
        assert forall|s: Seq<char>, p: int| #[trigger] stands(s, p, w) implies atom_end(s, p) == Some(p + 2 + 2) by {
            lemma_spread(s, p, w);
            lemma_atom_class(s, p);
            lemma_class_char(s, p + 1, true);
            lemma_class_char(s, p + 2, false);
            lemma_class_close(s, p + 3);
        }
    }
    assert(class_ok(seq!['-', '+'])) by {
        let c = seq!['-', '+'];
        let w = seq!['['] + c + seq![']'];
        assert forall|s: Seq<char>, p: int| #[trigger] stands(s, p, w) implies atom_end(s, p) == Some(p + 2 + 2) by {
            lemma_spread(s, p, w);
            lemma_atom_class(s, p);
            lemma_class_char(s, p + 1, true);
            lemma_class_char(s, p + 2, false);
            lemma_class_close(s, p + 3);
        }
    }
}

/// What stands in a text stands there character by character.
proof fn lemma_spread(s: Seq<char>, p: int, w: Seq<char>)
    requires
        stands(s, p, w),
    ensures
        forall|i: int| p <= i < p + w.len() ==> #[trigger] s[i] == w[i - p],
        0 <= p,
        p + w.len() <= s.len(),
{
    assert forall|i: int| p <= i < p + w.len() implies #[trigger] s[i] == w[i - p] by {
        lemma_stands_at(s, p, w, i - p);
    }
}

proof fn lemma_ws_drawn(all: Seq<Seq<char>>, rank: spec_fn(Seq<char>) -> nat)
    ensures
        drawn(("ws"@, WS_RULE@), all, rank),
{
    reveal_strlit("[ \\t\\n]*");
    let w = seq![' ', '\\', 't', '\\', 'n'];
    lemma_classes();
    lemma_class_item(w, Some('*'), all, false);
    let v = cons(set_of(w, Some('*')), nil());
    lemma_nil(all, false);
    lemma_cons(set_of(w, Some('*')), nil(), all, false);
    lemma_one(v, all, false);
    assert(seq![' '] + WS_RULE@ =~= alts_text(one(v)));
    assert(drawn_as(("ws"@, WS_RULE@), one(v), all, rank));
}

/// Texts of one character, as they are written.
proof fn lemma_lits()
    ensures
        lit_of(seq!['"']) == seq!['"', '\\', '"', '"'],
        lit_of(seq!['\\']) == seq!['"', '\\', '\\', '"'],
        lit_of(seq!['\\', 'u']) == seq!['"', '\\', '\\', 'u', '"'],
        lit_of(seq!['-']) == seq!['"', '-', '"'],
        lit_of(seq!['0']) == seq!['"', '0', '"'],
        lit_of(seq!['.']) == seq!['"', '.', '"'],
{
    reveal_strlit("\\\"");
    reveal_strlit("\\\\");
    let e = Seq::<char>::empty();
    assert(lit_chars(e) =~= e);
    assert(seq!['"'].drop_last() =~= e);
    assert(seq!['\\'].drop_last() =~= e);
    assert(seq!['\\', 'u'].drop_last() =~= seq!['\\']);
    assert(lit_of(seq!['"']) =~= seq!['"', '\\', '"', '"']);
    assert(lit_of(seq!['\\']) =~= seq!['"', '\\', '\\', '"']);
    assert(lit_of(seq!['\\', 'u']) =~= seq!['"', '\\', '\\', 'u', '"']);
    lemma_lit_plain(seq!['-']);
    lemma_lit_plain(seq!['0']);
    lemma_lit_plain(seq!['.']);
    assert(lit_of(seq!['-']) =~= seq!['"', '-', '"']);
    assert(lit_of(seq!['0']) =~= seq!['"', '0', '"']);
    assert(lit_of(seq!['.']) =~= seq!['"', '.', '"']);
}

/// The marks between values, as they are written.
pub proof fn lemma_marks()
    ensures
        lit_of(seq!['{']) == seq!['"', '{', '"'],
        lit_of(seq!['}']) == seq!['"', '}', '"'],
        lit_of(seq!['[']) == seq!['"', '[', '"'],
        lit_of(seq![']']) == seq!['"', ']', '"'],
        lit_of(seq![',']) == seq!['"', ',', '"'],
        lit_of(seq![':']) == seq!['"', ':', '"'],
{
    lemma_lit_plain(seq!['{']);
    lemma_lit_plain(seq!['}']);
    lemma_lit_plain(seq!['[']);
    lemma_lit_plain(seq![']']);
    lemma_lit_plain(seq![',']);
    lemma_lit_plain(seq![':']);
    assert(lit_of(seq!['{']) =~= seq!['"', '{', '"']);
    assert(lit_of(seq!['}']) =~= seq!['"', '}', '"']);
    assert(lit_of(seq!['[']) =~= seq!['"', '[', '"']);
    assert(lit_of(seq![']']) =~= seq!['"', ']', '"']);
    assert(lit_of(seq![',']) =~= seq!['"', ',', '"']);
    assert(lit_of(seq![':']) =~= seq!['"', ':', '"']);
}

proof fn lemma_string_drawn(all: Seq<Seq<char>>, rank: spec_fn(Seq<char>) -> nat)
    ensures
        drawn(("string"@, STRING_RULE@), all, rank),
{
    let r = STRING_RULE@;
    let hex = seq!['0', '-', '9', 'a', '-', 'f', 'A', '-', 'F'];
    let esc = seq!['"', '\\', '\\', '/', 'b', 'f', 'n', 'r', 't'];
    let any = seq!['^', '"', '\\', '\\'];
    lemma_classes();
    lemma_lits();
    lemma_nil(all, false);
    lemma_class_item(hex, None, all, false);
    lemma_class_item(esc, None, all, false);
    lemma_class_item(any, None, all, false);
    lemma_lit_item(seq!['"'], all, false);
    lemma_lit_item(seq!['\\'], all, false);
    lemma_lit_item(seq!['\\', 'u'], all, false);
    // four hexadecimal digits behind a mark
    let h = set_of(hex, None);
    let h1 = cons(h, nil());
    let h2 = cons(h, h1);
    let h3 = cons(h, h2);
    let h4 = cons(h, h3);
    let c = cons(lit(seq!['\\', 'u']), h4);
    lemma_cons(h, nil(), all, false);
    lemma_cons(h, h1, all, false);
    lemma_cons(h, h2, all, false);
    lemma_cons(h, h3, all, false);
    lemma_cons(lit(seq!['\\', 'u']), h4, all, false);
    let b1 = cons(set_of(esc, None), nil());
    let b = cons(lit(seq!['\\']), b1);
    lemma_cons(set_of(esc, None), nil(), all, false);
    lemma_cons(lit(seq!['\\']), b1, all, false);
    let a = cons(set_of(any, None), nil());
    lemma_cons(set_of(any, None), nil(), all, false);
    lemma_one(c, all, false);
    lemma_or(b, one(c), all, false);
    let g = or(a, or(b, one(c)));
    lemma_or(a, or(b, one(c)), all, false);
    lemma_group_item(g, Some('*'), all, false);
    let q = lit(seq!['"']);
    let v1 = cons(q, nil());
    let v2 = cons(group(g, Some('*')), v1);
    let v = cons(q, v2);
    lemma_cons(q, nil(), all, false);
    lemma_cons(group(g, Some('*')), v1, all, false);
    lemma_cons(q, v2, all, false);
    lemma_one(v, all, false);
    let hw = seq![' ', '[', '0', '-', '9', 'a', '-', 'f', 'A', '-', 'F', ']'];
    assert(item_text(h) =~= hw);
    assert(items_text(h4) =~= hw + hw + hw + hw);
    assert(items_text(c) =~= seq![' ', '"', '\\', '\\', 'u', '"'] + (hw + hw + hw + hw));
    assert(items_text(b) =~= seq![
        ' ', '"', '\\', '\\', '"', ' ', '[', '"', '\\', '\\', '/', 'b', 'f', 'n', 'r', 't', ']',
    ]);
    assert(items_text(a) =~= seq![' ', '[', '^', '"', '\\', '\\', ']']);
    assert(items_text(v1) =~= seq![' ', '"', '\\', '"', '"']);
    lemma_string_text(items_text(a), items_text(b), items_text(c), items_text(v1), alts_text(one(v)));
    assert(drawn_as(("string"@, r), one(v), all, rank));
}

/// The rule of `string`, in parts.
proof fn lemma_string_text(a: Seq<char>, b: Seq<char>, c: Seq<char>, q: Seq<char>, whole: Seq<char>)
    requires
        a == seq![' ', '[', '^', '"', '\\', '\\', ']'],
        b == seq![' ', '"', '\\', '\\', '"', ' ', '[', '"', '\\', '\\', '/', 'b', 'f', 'n', 'r', 't', ']'],
        ({
            let hw = seq![' ', '[', '0', '-', '9', 'a', '-', 'f', 'A', '-', 'F', ']'];
            c == seq![' ', '"', '\\', '\\', 'u', '"'] + (hw + hw + hw + hw)
        }),
        q == seq![' ', '"', '\\', '"', '"'],
        whole == q + ((seq![' '] + (seq!['('] + (a + seq![' ', '|'] + (b + seq![' ', '|'] + c)) + seq![' ', ')']) + seq!['*'])
            + q),
    ensures
        seq![' '] + STRING_RULE@ == whole,
{
    reveal_strlit("\"\\\"\" ( [^\"\\\\] | \"\\\\\" [\"\\\\/bfnrt] | \"\\\\u\" [0-9a-fA-F] [0-9a-fA-F] [0-9a-fA-F] [0-9a-fA-F] )* \"\\\"\"");
    assert(seq![' '] + STRING_RULE@ =~= whole);
}

/// Whole numbers without a sign, as a group.
spec fn digits() -> Item {
    let nine = set_of(seq!['1', '-', '9'], None);
    let more = set_of(seq!['0', '-', '9'], Some('*'));
    group(or(cons(lit(seq!['0']), nil()), one(cons(nine, cons(more, nil())))), None)
}

proof fn lemma_digits(all: Seq<Seq<char>>)
    ensures
        item_ok(digits(), all, false),
        item_text(digits()) == seq![
            ' ', '(', ' ', '"', '0', '"', ' ', '|', ' ', '[', '1', '-', '9', ']', ' ', '[', '0', '-', '9', ']', '*', ' ', ')',
        ],
{
    let nine = set_of(seq!['1', '-', '9'], None);
    let more = set_of(seq!['0', '-', '9'], Some('*'));
    lemma_classes();
    lemma_lits();
    lemma_nil(all, false);
    lemma_class_item(seq!['1', '-', '9'], None, all, false);
    lemma_class_item(seq!['0', '-', '9'], Some('*'), all, false);
    lemma_lit_item(seq!['0'], all, false);
    let a = cons(lit(seq!['0']), nil());
    let b1 = cons(more, nil());
    let b = cons(nine, b1);
    lemma_cons(lit(seq!['0']), nil(), all, false);
    lemma_cons(more, nil(), all, false);
    lemma_cons(nine, b1, all, false);
    lemma_one(b, all, false);
    lemma_or(a, one(b), all, false);
    lemma_group_item(or(a, one(b)), None, all, false);
    assert(items_text(a) =~= seq![' ', '"', '0', '"']);
    assert(items_text(b) =~= seq![' ', '[', '1', '-', '9', ']', ' ', '[', '0', '-', '9', ']', '*']);
    assert(item_text(digits()) =~= seq![
        ' ', '(', ' ', '"', '0', '"', ' ', '|', ' ', '[', '1', '-', '9', ']', ' ', '[', '0', '-', '9', ']', '*', ' ', ')',
    ]);
}

proof fn lemma_integer_drawn(all: Seq<Seq<char>>, rank: spec_fn(Seq<char>) -> nat)
    ensures
        drawn(("integer"@, INTEGER_RULE@), all, rank),
{
    reveal_strlit("\"-\"? ( \"0\" | [1-9] [0-9]* )");
    lemma_lits();
    lemma_nil(all, false);
    lemma_digits(all);
    lemma_opt_lit(seq!['-'], all, false);
    let sign = Item { piece: Piece::Lit(seq!['-']), op: Some('?') };
    let v1 = cons(digits(), nil());
    let v = cons(sign, v1);
    lemma_cons(digits(), nil(), all, false);
    lemma_cons(sign, v1, all, false);
    lemma_one(v, all, false);
    assert(item_text(sign) =~= seq![' ', '"', '-', '"', '?']);
    assert(seq![' '] + INTEGER_RULE@ =~= alts_text(one(v)));
    assert(drawn_as(("integer"@, INTEGER_RULE@), one(v), all, rank));
}

proof fn lemma_number_drawn(all: Seq<Seq<char>>, rank: spec_fn(Seq<char>) -> nat)
    ensures
        drawn(("number"@, NUMBER_RULE@), all, rank),
{
    let nine = seq!['0', '-', '9'];
    lemma_lits();
    lemma_classes();
    lemma_nil(all, false);
    lemma_digits(all);
    lemma_opt_lit(seq!['-'], all, false);
    lemma_lit_item(seq!['.'], all, false);
    lemma_class_item(nine, Some('+'), all, false);
    lemma_class_item(seq!['e', 'E'], None, all, false);
    lemma_class_item(seq!['-', '+'], Some('?'), all, false);
    let sign = Item { piece: Piece::Lit(seq!['-']), op: Some('?') };
    let many = set_of(nine, Some('+'));
    let f1 = cons(many, nil());
    let f = cons(lit(seq!['.']), f1);
    lemma_cons(many, nil(), all, false);
    lemma_cons(lit(seq!['.']), f1, all, false);
    lemma_one(f, all, false);
    lemma_group_item(one(f), Some('?'), all, false);
    let e1 = cons(set_of(seq!['-', '+'], Some('?')), f1);
    let e = cons(set_of(seq!['e', 'E'], None), e1);
    lemma_cons(set_of(seq!['-', '+'], Some('?')), f1, all, false);
    lemma_cons(set_of(seq!['e', 'E'], None), e1, all, false);
    lemma_one(e, all, false);
    lemma_group_item(one(e), Some('?'), all, false);
    let v3 = cons(group(one(e), Some('?')), nil());
    let v2 = cons(group(one(f), Some('?')), v3);
    let v1 = cons(digits(), v2);
    let v = cons(sign, v1);
    lemma_cons(group(one(e), Some('?')), nil(), all, false);
    lemma_cons(group(one(f), Some('?')), v3, all, false);
    lemma_cons(digits(), v2, all, false);
    lemma_cons(sign, v1, all, false);
    lemma_one(v, all, false);
    assert(items_text(f1) =~= seq![' ', '[', '0', '-', '9', ']', '+']);
    let ft = seq![' ', '(', ' ', '"', '.', '"', ' ', '[', '0', '-', '9', ']', '+', ' ', ')', '?'];
    assert(item_text(group(one(f), Some('?'))) =~= ft);
    let et = seq![
        ' ', '(', ' ', '[', 'e', 'E', ']', ' ', '[', '-', '+', ']', '?', ' ', '[', '0', '-', '9', ']', '+', ' ', ')', '?',
    ];
    assert(item_text(group(one(e), Some('?'))) =~= et);
    assert(item_text(sign) =~= seq![' ', '"', '-', '"', '?']);
    assert(items_text(v3) =~= et);
    reveal_strlit("\"-\"? ( \"0\" | [1-9] [0-9]* ) ( \".\" [0-9]+ )? ( [eE] [-+]? [0-9]+ )?");
    assert(seq![' '] + NUMBER_RULE@ =~= alts_text(one(v)));
    assert(drawn_as(("number"@, NUMBER_RULE@), one(v), all, rank));
}

proof fn lemma_words_drawn(all: Seq<Seq<char>>, rank: spec_fn(Seq<char>) -> nat)
    ensures
        drawn(("boolean"@, BOOLEAN_RULE@), all, rank),
        drawn(("null"@, NULL_RULE@), all, rank),
{
    let t = seq!['t', 'r', 'u', 'e'];
    let f = seq!['f', 'a', 'l', 's', 'e'];
    let n = seq!['n', 'u', 'l', 'l'];
    lemma_lit_plain(t);
    lemma_lit_plain(f);
    lemma_lit_plain(n);
    lemma_nil(all, false);
    lemma_lit_item(t, all, false);
    lemma_lit_item(f, all, false);
    lemma_lit_item(n, all, false);
    lemma_cons(lit(t), nil(), all, false);
    lemma_cons(lit(f), nil(), all, false);
    lemma_cons(lit(n), nil(), all, false);
    let b = or(cons(lit(t), nil()), one(cons(lit(f), nil())));
    lemma_one(cons(lit(f), nil()), all, false);
    lemma_or(cons(lit(t), nil()), one(cons(lit(f), nil())), all, false);
    lemma_one(cons(lit(n), nil()), all, false);
    reveal_strlit("\"true\" | \"false\"");
    reveal_strlit("\"null\"");
    assert(seq![' '] + BOOLEAN_RULE@ =~= alts_text(b));
    assert(drawn_as(("boolean"@, BOOLEAN_RULE@), b, all, rank));
    assert(seq![' '] + NULL_RULE@ =~= alts_text(one(cons(lit(n), nil()))));
    assert(drawn_as(("null"@, NULL_RULE@), one(cons(lit(n), nil())), all, rank));
}

/// Whether the names of the first rules are among these.
pub open spec fn basics(all: Seq<Seq<char>>) -> bool {
    forall|i: int| 0 <= i < 9 ==> name_index(all, (#[trigger] prelude()[i]).0) >= 0
}

/// Alternates of one name each.
pub open spec fn choice(ns: Seq<Seq<char>>) -> Seq<Seq<Item>> {
    Seq::new(ns.len(), |i: int| cons(name(ns[i]), nil()))
}

/// A rule that is one of some others, each of a lower rank.
pub proof fn lemma_choice_drawn(r: Row, ns: Seq<Seq<char>>, all: Seq<Seq<char>>, rank: spec_fn(Seq<char>) -> nat)
    requires
        ns.len() > 0,
        r.1 == joined(ns, " | "@),
        forall|i: int|
            0 <= i < ns.len() ==> (#[trigger] ns[i]).len() > 0 && name_index(all, ns[i]) >= 0 && rank(ns[i]) < rank(r.0),
        forall|i: int, j: int| 0 <= i < ns.len() && 0 <= j < ns[i].len() ==> name_char(#[trigger] ns[i][j]),
    ensures
        drawn(r, all, rank),
{
    let v = choice(ns);
    lemma_choice_text(ns, all);
    assert forall|k: int| 0 <= k < v.len() implies (#[trigger] v[k]).len() == 1 && v[k][0].op is None && match v[k][0].piece {
        Piece::Name(n) => rank(n) < rank(r.0),
        _ => false,
    } by {
        assert(v[k] == cons(name(ns[k]), nil()));
        assert(rank(ns[k]) < rank(r.0));
    }
    assert(names_below(v, rank, r.0));
    assert(drawn_as(r, v, all, rank));
}

pub proof fn lemma_choice_text(ns: Seq<Seq<char>>, all: Seq<Seq<char>>)
    requires
        ns.len() > 0,
        forall|i: int| 0 <= i < ns.len() ==> (#[trigger] ns[i]).len() > 0 && name_index(all, ns[i]) >= 0,
        forall|i: int, j: int| 0 <= i < ns.len() && 0 <= j < ns[i].len() ==> name_char(#[trigger] ns[i][j]),
    ensures
        seq![' '] + joined(ns, " | "@) == alts_text(choice(ns)),
        alts_ok(choice(ns), all, true),
    decreases ns.len(),
{
    reveal_strlit(" | ");
    let n = ns[0];
    assert forall|j: int| 0 <= j < n.len() implies name_char(#[trigger] n[j]) by {
        assert(name_char(ns[0][j]));
    }
    lemma_nil(all, true);
    lemma_name_item(n, all);
    lemma_cons(name(n), nil(), all, true);
    let x = cons(name(n), nil());
    assert(items_text(x) =~= seq![' '] + n);
    if ns.len() == 1 {
        assert(choice(ns) =~= one(x));
        lemma_one(x, all, true);
        assert(seq![' '] + joined(ns, " | "@) =~= alts_text(choice(ns)));
    } else {
        let rest = ns.drop_first();
        assert forall|i: int| 0 <= i < rest.len() implies (#[trigger] rest[i]).len() > 0 && name_index(all, rest[i]) >= 0 by {
            assert(ns[i + 1].len() > 0);
        }
        assert forall|i: int, j: int| 0 <= i < rest.len() && 0 <= j < rest[i].len() implies name_char(#[trigger] rest[i][j]) by {
            assert(name_char(ns[i + 1][j]));
        }
        lemma_choice_text(rest, all);
        assert(choice(ns) =~= or(x, choice(rest)));
        lemma_or(x, choice(rest), all, true);
        lemma_joined_first(ns, " | "@);
        assert(seq![' '] + joined(ns, " | "@) =~= alts_text(choice(ns)));
    }
}

/// Whether this is the name of a rule.
pub open spec fn known(n: Seq<char>, all: Seq<Seq<char>>) -> bool {
    &&& n.len() > 0
    &&& forall|i: int| 0 <= i < n.len() ==> name_char(#[trigger] n[i])
    &&& name_index(all, n) >= 0
}

/// The names of the first rules.
pub proof fn lemma_basics_known(all: Seq<Seq<char>>)
    requires
        basics(all),
    ensures
        known("ws"@, all),
        known("string"@, all),
        known("integer"@, all),
        known("number"@, all),
        known("boolean"@, all),
        known("null"@, all),
        known("value"@, all),
        known("object"@, all),
        known("array"@, all),
{
    preludes_are_well_formed();
    assert forall|i: int| 0 <= i < 9 implies known((#[trigger] prelude()[i]).0, all) by {
        assert(clean(prelude()[i]));
        assert(name_index(all, prelude()[i].0) >= 0);
    }
    assert(known(prelude()[0].0, all));
    assert(known(prelude()[1].0, all));
    assert(known(prelude()[2].0, all));
    assert(known(prelude()[3].0, all));
    assert(known(prelude()[4].0, all));
    assert(known(prelude()[5].0, all));
    assert(known(prelude()[6].0, all));
    assert(known(prelude()[7].0, all));
    assert(known(prelude()[8].0, all));
}

/// White space, a mark, white space, and other items behind them.
pub open spec fn marked(c: char, rest: Seq<Item>) -> Seq<Item> {
    cons(name("ws"@), cons(lit(seq![c]), cons(name("ws"@), rest)))
}

pub proof fn lemma_marked(c: char, rest: Seq<Item>, all: Seq<Seq<char>>)
    requires
        basics(all),
        c == ',' || c == ':',
        items_ok(rest, all, true),
    ensures
        items_ok(marked(c, rest), all, true),
        items_text(marked(c, rest)) == seq![' ', 'w', 's', ' ', '"', c, '"', ' ', 'w', 's'] + items_text(rest),
        firm_items(marked(c, rest)),
{
    reveal_strlit("ws");
    lemma_basics_known(all);
    lemma_marks();
    lemma_name_item("ws"@, all);
    lemma_lit_item(seq![c], all, true);
    let a = cons(name("ws"@), rest);
    let b = cons(lit(seq![c]), a);
    lemma_cons(name("ws"@), rest, all, true);
    lemma_cons(lit(seq![c]), a, all, true);
    lemma_cons(name("ws"@), b, all, true);
    assert(firm_item(lit(seq![c])));
    assert("ws"@ =~= seq!['w', 's']);
    assert(items_text(marked(c, rest)) =~= seq![' ', 'w', 's', ' ', '"', c, '"', ' ', 'w', 's'] + items_text(rest));
}

/// A mark and white space, items, white space and another mark.
pub open spec fn enclosed(a: char, inner: Seq<Item>, b: char) -> Seq<Item> {
    cons(lit(seq![a]), cons(name("ws"@), inner + cons(name("ws"@), cons(lit(seq![b]), nil()))))
}

pub proof fn lemma_items_concat(a: Seq<Item>, b: Seq<Item>, all: Seq<Seq<char>>, hot: bool)
    ensures
        items_text(a + b) == items_text(a) + items_text(b),
        items_ok(a + b, all, hot) == (items_ok(a, all, hot) && items_ok(b, all, hot)),
    decreases a.len(),
{
    if a.len() == 0 {
        assert(a + b =~= b);
        assert(items_text(a) + items_text(b) =~= items_text(b));
    } else {
        let rest = a.drop_first();
        lemma_items_concat(rest, b, all, hot);
        assert(a =~= cons(a[0], rest));
        assert(a + b =~= cons(a[0], rest + b));
        lemma_cons(a[0], rest, all, hot);
        lemma_cons(a[0], rest + b, all, hot);
        assert(items_text(a + b) =~= items_text(a) + items_text(b));
    }
}

/// What stands between two marks is a rule that takes input at once.
pub proof fn lemma_enclosed_drawn(
    r: Row,
    a: char,
    inner: Seq<Item>,
    b: char,
    all: Seq<Seq<char>>,
    rank: spec_fn(Seq<char>) -> nat,
)
    requires
        basics(all),
        (a == '{' && b == '}') || (a == '[' && b == ']'),
        items_ok(inner, all, true),
        seq![' '] + r.1 == seq![' ', '"', a, '"', ' ', 'w', 's'] + items_text(inner) + seq![
            ' ', 'w', 's', ' ', '"', b, '"',
        ],
    ensures
        drawn(r, all, rank),
        seq![' '] + r.1 == alts_text(one(enclosed(a, inner, b))),
        alts_ok(one(enclosed(a, inner, b)), all, true),
{
    reveal_strlit("ws");
    assert("ws"@ =~= seq!['w', 's']);
    lemma_basics_known(all);
    lemma_marks();
    lemma_nil(all, true);
    lemma_name_item("ws"@, all);
    lemma_lit_item(seq![a], all, true);
    lemma_lit_item(seq![b], all, true);
    let e1 = cons(lit(seq![b]), nil());
    let e = cons(name("ws"@), e1);
    lemma_cons(lit(seq![b]), nil(), all, true);
    lemma_cons(name("ws"@), e1, all, true);
    lemma_items_concat(inner, e, all, true);
    let v1 = cons(name("ws"@), inner + e);
    let v = enclosed(a, inner, b);
    lemma_cons(name("ws"@), inner + e, all, true);
    lemma_cons(lit(seq![a]), v1, all, true);
    assert(v == cons(lit(seq![a]), v1));
    assert(firm_item(lit(seq![a])));
    lemma_one(v, all, true);
    assert(items_text(e) =~= seq![' ', 'w', 's', ' ', '"', b, '"']);
    assert(items_text(v) =~= seq![' ', '"', a, '"', ' ', 'w', 's'] + items_text(inner) + seq![
        ' ', 'w', 's', ' ', '"', b, '"',
    ]);
    assert(drawn_as(r, one(v), all, rank));
}

/// What stands in a list: nothing, or an item and any number of further ones behind commas.
pub open spec fn list_items(item: Seq<char>) -> Seq<Item> {
    let x = cons(name(item), nil());
    cons(group(one(cons(name(item), cons(group(one(marked(',', x)), Some('*')), nil()))), Some('?')), nil())
}

/// The rule of a list takes input at once.
pub proof fn lemma_list_drawn(r: Row, item: Seq<char>, all: Seq<Seq<char>>, rank: spec_fn(Seq<char>) -> nat)
    requires
        basics(all),
        known(item, all),
        r.1 == list_body(item),
    ensures
        drawn(r, all, rank),
        seq![' '] + r.1 == alts_text(one(enclosed('[', list_items(item), ']'))),
        alts_ok(one(enclosed('[', list_items(item), ']')), all, true),
{
    lemma_nil(all, true);
    lemma_name_item(item, all);
    let x = cons(name(item), nil());
    lemma_cons(name(item), nil(), all, true);
    lemma_marked(',', x, all);
    let more = one(marked(',', x));
    lemma_one(marked(',', x), all, true);
    lemma_group_item(more, Some('*'), all, true);
    let y1 = cons(group(more, Some('*')), nil());
    let y = cons(name(item), y1);
    lemma_cons(group(more, Some('*')), nil(), all, true);
    lemma_cons(name(item), y1, all, true);
    lemma_one(y, all, true);
    lemma_group_item(one(y), Some('?'), all, true);
    let inner = cons(group(one(y), Some('?')), nil());
    lemma_cons(group(one(y), Some('?')), nil(), all, true);
    reveal_strlit("\"[\" ws ( ");
    reveal_strlit(" ( ws \",\" ws ");
    reveal_strlit(" )* )? ws \"]\"");
    let loop_text = seq![' ', '(', ' ', 'w', 's', ' ', '"', ',', '"', ' ', 'w', 's', ' '] + item + seq![' ', ')', '*'];
    assert(item_text(group(more, Some('*'))) =~= loop_text);
    assert(items_text(inner) =~= seq![' ', '(', ' '] + item + loop_text + seq![' ', ')', '?']);
    assert(seq![' '] + r.1 =~= seq![' ', '"', '[', '"', ' ', 'w', 's'] + items_text(inner) + seq![
        ' ', 'w', 's', ' ', '"', ']', '"',
    ]);
    lemma_enclosed_drawn(r, '[', inner, ']', all, rank);
}

/// A key, a colon and a value.
pub open spec fn pair_items(key: Item, symbol: Seq<char>) -> Seq<Item> {
    cons(key, marked(':', cons(name(symbol), nil())))
}

pub proof fn lemma_pair_items(key: Item, symbol: Seq<char>, all: Seq<Seq<char>>)
    requires
        basics(all),
        known(symbol, all),
        item_ok(key, all, true),
    ensures
        items_ok(pair_items(key, symbol), all, true),
        items_text(pair_items(key, symbol)) == item_text(key) + seq![
            ' ', 'w', 's', ' ', '"', ':', '"', ' ', 'w', 's', ' ',
        ] + symbol,
{
    lemma_nil(all, true);
    lemma_name_item(symbol, all);
    let x = cons(name(symbol), nil());
    lemma_cons(name(symbol), nil(), all, true);
    lemma_marked(':', x, all);
    lemma_cons(key, marked(':', x), all, true);
    assert(items_text(pair_items(key, symbol)) =~= item_text(key) + seq![
        ' ', 'w', 's', ' ', '"', ':', '"', ' ', 'w', 's', ' ',
    ] + symbol);
}

proof fn lemma_object_drawn(all: Seq<Seq<char>>, rank: spec_fn(Seq<char>) -> nat)
    requires
        basics(all),
    ensures
        drawn(("object"@, OBJECT_RULE@), all, rank),
{
    reveal_strlit("string");
    reveal_strlit("value");
    lemma_basics_known(all);
    lemma_nil(all, true);
    lemma_name_item("string"@, all);
    let pair = pair_items(name("string"@), "value"@);
    lemma_pair_items(name("string"@), "value"@, all);
    lemma_marked(',', pair, all);
    let more = one(marked(',', pair));
    lemma_one(marked(',', pair), all, true);
    lemma_group_item(more, Some('*'), all, true);
    let tail = cons(group(more, Some('*')), nil());
    lemma_cons(group(more, Some('*')), nil(), all, true);
    lemma_items_concat(pair, tail, all, true);
    lemma_one(pair + tail, all, true);
    lemma_group_item(one(pair + tail), Some('?'), all, true);
    let inner = cons(group(one(pair + tail), Some('?')), nil());
    lemma_cons(group(one(pair + tail), Some('?')), nil(), all, true);
    let p = seq![
        ' ', 's', 't', 'r', 'i', 'n', 'g', ' ', 'w', 's', ' ', '"', ':', '"', ' ', 'w', 's', ' ', 'v', 'a', 'l', 'u', 'e',
    ];
    assert(items_text(pair) =~= p);
    let q = seq![' ', '(', ' ', 'w', 's', ' ', '"', ',', '"', ' ', 'w', 's'] + p + seq![' ', ')', '*'];
    assert(items_text(tail) =~= q);
    assert(items_text(inner) =~= seq![' ', '('] + p + q + seq![' ', ')', '?']);
    reveal_strlit("\"{\" ws ( string ws \":\" ws value ( ws \",\" ws string ws \":\" ws value )* )? ws \"}\"");
    let r = OBJECT_RULE@;
    assert(seq![' '] + r =~= seq![' ', '"', '{', '"', ' ', 'w', 's'] + (seq![' ', '('] + p + q + seq![' ', ')', '?']) + seq![
        ' ', 'w', 's', ' ', '"', '}', '"',
    ]);
    lemma_enclosed_drawn(("object"@, r), '{', inner, '}', all, rank);
}

proof fn lemma_array_drawn(all: Seq<Seq<char>>, rank: spec_fn(Seq<char>) -> nat)
    requires
        basics(all),
    ensures
        drawn(("array"@, ARRAY_RULE@), all, rank),
{
    lemma_basics_known(all);
    reveal_strlit("value");
    reveal_strlit("\"[\" ws ( ");
    reveal_strlit(" ( ws \",\" ws ");
    reveal_strlit(" )* )? ws \"]\"");
    reveal_strlit("\"[\" ws ( value ( ws \",\" ws value )* )? ws \"]\"");
    assert(ARRAY_RULE@ =~= list_body("value"@));
    lemma_list_drawn(("array"@, ARRAY_RULE@), "value"@, all, rank);
}

/// Whether a value ranks above what it can be.
pub open spec fn values_on_top(rank: spec_fn(Seq<char>) -> nat) -> bool {
    &&& rank("object"@) < rank("value"@)
    &&& rank("array"@) < rank("value"@)
    &&& rank("string"@) < rank("value"@)
    &&& rank("number"@) < rank("value"@)
    &&& rank("boolean"@) < rank("value"@)
    &&& rank("null"@) < rank("value"@)
}

proof fn lemma_value_drawn(all: Seq<Seq<char>>, rank: spec_fn(Seq<char>) -> nat)
    requires
        basics(all),
        values_on_top(rank),
    ensures
        drawn(("value"@, VALUE_RULE@), all, rank),
{
    lemma_basics_known(all);
    let ns = seq!["object"@, "array"@, "string"@, "number"@, "boolean"@, "null"@];
    let bar = " | "@;
    let n5 = ns.drop_last();
    let n4 = n5.drop_last();
    let n3 = n4.drop_last();
    let n2 = n3.drop_last();
    let n1 = n2.drop_last();
    assert(joined(n1, bar) == "object"@);
    assert(joined(n2, bar) == joined(n1, bar) + bar + "array"@);
    assert(joined(n3, bar) == joined(n2, bar) + bar + "string"@);
    assert(joined(n4, bar) == joined(n3, bar) + bar + "number"@);
    assert(joined(n5, bar) == joined(n4, bar) + bar + "boolean"@);
    assert(joined(ns, bar) == joined(n5, bar) + bar + "null"@);
    reveal_strlit("object");
    reveal_strlit("array");
    reveal_strlit("string");
    reveal_strlit("number");
    reveal_strlit("boolean");
    reveal_strlit("null");
    reveal_strlit(" | ");
    reveal_strlit("object | array | string | number | boolean | null");
    assert(VALUE_RULE@ =~= joined(ns, bar));
    assert forall|i: int, j: int| 0 <= i < ns.len() && 0 <= j < ns[i].len() implies name_char(#[trigger] ns[i][j]) by {
        assert(known(ns[i], all));
    }
    assert forall|i: int| 0 <= i < ns.len() implies (#[trigger] ns[i]).len() > 0 && name_index(all, ns[i]) >= 0 && rank(ns[i])
        < rank("value"@) by {
        assert(known(ns[i], all));
    }
    lemma_choice_drawn(("value"@, VALUE_RULE@), ns, all, rank);
}

/// The first rules keep the order.
pub proof fn preludes_are_drawn(all: Seq<Seq<char>>, rank: spec_fn(Seq<char>) -> nat)
    requires
        basics(all),
        values_on_top(rank),
    ensures
        forall|i: int| 0 <= i < 9 ==> drawn(#[trigger] prelude()[i], all, rank),
{
    lemma_ws_drawn(all, rank);
    lemma_string_drawn(all, rank);
    lemma_integer_drawn(all, rank);
    lemma_number_drawn(all, rank);
    lemma_words_drawn(all, rank);
    lemma_value_drawn(all, rank);
    lemma_object_drawn(all, rank);
    lemma_array_drawn(all, rank);
    assert forall|i: int| 0 <= i < 9 implies drawn(#[trigger] prelude()[i], all, rank) by {
        assert(i == 0 || i == 1 || i == 2 || i == 3 || i == 4 || i == 5 || i == 6 || i == 7 || i == 8);
    }
}

} // verus!
