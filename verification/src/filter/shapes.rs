//! What the parts of a rule compile to.
use vstd::prelude::*;
use crate::filter::automaton::{shaped, Elem};
use crate::filter::drafts::{
    atom_end, draft_ok, hidden, lemma_atom, lemma_name_end_is, lemma_name_index, lemma_name_index_stays, unended,
};
use crate::filter::forms::{lemma_stands_at, lemma_stands_parts, stands};
use crate::filter::json_schema::{chars_elems, lemma_decimal_differs, lemma_literal_at, lit_of};
use crate::filter::soundness::{firm_from, reaches, takes};
use crate::filter::syntax::{
    alternates, atom, class, defined, helper_name, interned, member, name_char, name_index, postfix, repeated,
    rule_ref, escaped, sequence, with_rule, Draft, GrammarError,
};
use crate::text::{decimal, skip_white, white};

verus! {

/// An atom of a rule: a text, a class by what stands in its brackets, a rule's name, or a group of
/// alternates.
pub enum Piece {
    Lit(Seq<char>),
    Class(Seq<char>),
    Name(Seq<char>),
    Group(Seq<Seq<Item>>),
}

/// An atom, and how it is repeated.
pub struct Item {
    pub piece: Piece,
    pub op: Option<char>,
}

/// An atom as it is written.
pub open spec fn piece_text(x: Piece) -> Seq<char>
    decreases x,
{
    match x {
        Piece::Lit(t) => lit_of(t),
        Piece::Class(w) => seq!['['] + w + seq![']'],
        Piece::Name(n) => n,
        Piece::Group(v) => seq!['('] + alts_text(v) + seq![' ', ')'],
    }
}

/// A repetition as it is written.
pub open spec fn op_text(op: Option<char>) -> Seq<char> {
    match op {
        Some(c) => seq![c],
        None => seq![],
    }
}

/// An item as it is written, behind a space.
pub open spec fn item_text(i: Item) -> Seq<char>
    decreases i,
{
    seq![' '] + piece_text(i.piece) + op_text(i.op)
}

/// Items as they are written.
pub open spec fn items_text(v: Seq<Item>) -> Seq<char>
    decreases v,
{
    if v.len() == 0 {
        seq![]
    } else {
        item_text(v[0]) + items_text(v.drop_first())
    }
}

/// Alternates as they are written.
pub open spec fn alts_text(v: Seq<Seq<Item>>) -> Seq<char>
    decreases v,
{
    if v.len() == 0 {
        seq![]
    } else if v.len() == 1 {
        items_text(v[0])
    } else {
        items_text(v[0]) + seq![' ', '|'] + alts_text(v.drop_first())
    }
}

/// Whether what stands in brackets is read as a class, wherever it stands.
pub open spec fn class_ok(w: Seq<char>) -> bool {
    forall|s: Seq<char>, p: int| #[trigger]
        stands(s, p, seq!['['] + w + seq![']']) ==> atom_end(s, p) == Some(p + w.len() + 2)
}

/// Whether an item takes input by itself.
pub open spec fn firm_item(i: Item) -> bool {
    i.op is None && match i.piece {
        Piece::Lit(t) => t.len() > 0,
        Piece::Class(_) => true,
        _ => false,
    }
}

/// Whether one of the items takes input.
pub open spec fn firm_items(v: Seq<Item>) -> bool {
    exists|j: int| 0 <= j < v.len() && firm_item(#[trigger] v[j])
}

/// Whether an atom takes input, whichever way it is passed.
pub open spec fn firm_piece(x: Piece) -> bool {
    match x {
        Piece::Lit(t) => t.len() > 0,
        Piece::Class(_) => true,
        Piece::Name(_) => false,
        Piece::Group(v) => forall|k: int| 0 <= k < v.len() ==> firm_items(#[trigger] v[k]),
    }
}

/// Whether an atom is read as it was written: names, where there may be any, are those of rules.
pub open spec fn piece_ok(x: Piece, all: Seq<Seq<char>>, hot: bool) -> bool
    decreases x,
{
    match x {
        Piece::Lit(_) => true,
        Piece::Class(w) => class_ok(w),
        Piece::Name(n) => {
            &&& hot
            &&& n.len() > 0
            &&& forall|i: int| 0 <= i < n.len() ==> name_char(#[trigger] n[i])
            &&& name_index(all, n) >= 0
        },
        Piece::Group(v) => alts_ok(v, all, hot),
    }
}

/// Whether an item is read as it was written, and only what takes input is repeated without end.
pub open spec fn item_ok(i: Item, all: Seq<Seq<char>>, hot: bool) -> bool
    decreases i,
{
    &&& piece_ok(i.piece, all, hot)
    &&& match i.op {
        None => true,
        Some(c) => c == '?' || ((c == '*' || c == '+') && firm_piece(i.piece)),
    }
}

pub open spec fn items_ok(v: Seq<Item>, all: Seq<Seq<char>>, hot: bool) -> bool
    decreases v,
{
    v.len() == 0 || (item_ok(v[0], all, hot) && items_ok(v.drop_first(), all, hot))
}

pub open spec fn alts_ok(v: Seq<Seq<Item>>, all: Seq<Seq<char>>, hot: bool) -> bool
    decreases v,
{
    v.len() > 0 && items_ok(v[0], all, hot) && (v.len() == 1 || alts_ok(v.drop_first(), all, hot))
}

/// Whether the rules' own names stand first, and each helper's name holds its number.
pub open spec fn numbered(d: Draft, all: Seq<Seq<char>>) -> bool {
    &&& draft_ok(d)
    &&& all.len() <= d.names.len()
    &&& forall|i: int| 0 <= i < all.len() ==> #[trigger] d.names[i] == all[i] && !hidden(all[i])
    &&& forall|i: int| all.len() <= i < d.names.len() ==> (#[trigger] d.names[i]).len() >= 3 && d.names[i].skip(3) == decimal(
        i as nat,
    )
}

/// Whether the references of a row are to rules from `lo` up to `hi`, or where names may be to one
/// of the first `m`.
pub open spec fn refs_in(row: Seq<Elem>, lo: int, m: int, hot: bool, hi: int) -> bool {
    forall|i: int| 0 <= i < row.len() ==> match #[trigger] row[i] {
        Elem::RuleRef(t) => (lo <= t < hi) || (hot && t < m && t < hi),
        _ => true,
    }
}

/// Whether a helper rule takes input, whichever way it is passed: itself, or by the one helper that
/// it is.
pub open spec fn firm_above(rs: Seq<Seq<Elem>>, m: int, t: int) -> bool {
    &&& m <= t < rs.len()
    &&& firm_from(rs[t], 0) || (rs[t].len() == 2 && match rs[t][0] {
        Elem::RuleRef(g) => m <= g < rs.len() && firm_from(rs[g as int], 0),
        _ => false,
    })
}

/// Whether a rule repeats a helper before it that takes input.
pub open spec fn loops(rs: Seq<Seq<Elem>>, m: int, i: int) -> bool {
    &&& rs[i].len() >= 3
    &&& match rs[i][0] {
        Elem::RuleRef(t) => t < i && firm_above(rs, m, t as int),
        _ => false,
    }
    &&& forall|k: int| 0 < k < rs[i].len() && rs[i][k - 1] == Elem::Alt ==> #[trigger] rs[i][k] == Elem::End
}

/// Whether a helper rule refers to rules before it, or repeats one.
pub open spec fn helper(rs: Seq<Seq<Elem>>, lo: int, m: int, hot: bool, i: int) -> bool {
    &&& shaped(rs[i])
    &&& refs_in(rs[i], lo, m, hot, rs.len() as int)
    &&& refs_in(rs[i], lo, m, hot, i) || loops(rs, m, i)
}

/// Whether a draft came of another one by more rules.
pub open spec fn kept(d: Draft, e: Draft, all: Seq<Seq<char>>) -> bool {
    &&& numbered(e, all)
    &&& d.rules.len() <= e.rules.len()
    &&& forall|i: int| 0 <= i < d.rules.len() ==> #[trigger] e.rules[i] == d.rules[i]
}

/// Whether a draft came of another one by helper rules.
pub open spec fn helped(d: Draft, e: Draft, all: Seq<Seq<char>>, lo: int, hot: bool) -> bool {
    &&& kept(d, e, all)
    &&& forall|i: int| d.rules.len() <= i < e.rules.len() ==> #[trigger] helper(e.rules, lo, all.len() as int, hot, i)
}

/// A row without ends and bars.
pub open spec fn flat(row: Seq<Elem>) -> bool {
    forall|i: int| 0 <= i < row.len() ==> #[trigger] row[i] != Elem::End && row[i] != Elem::Alt
}

/// Whether an element of a row takes input.
pub open spec fn some_take(row: Seq<Elem>) -> bool {
    exists|i: int| 0 <= i < row.len() && takes(#[trigger] row[i])
}

proof fn lemma_firm_stays(a: Seq<Seq<Elem>>, b: Seq<Seq<Elem>>, m: int, t: int)
    requires
        0 <= m,
        a.len() <= b.len(),
        forall|i: int| 0 <= i < a.len() ==> #[trigger] b[i] == a[i],
        firm_above(a, m, t),
    ensures
        firm_above(b, m, t),
{
    assert(b[t] == a[t]);
    if !firm_from(a[t], 0) {
        let g = a[t][0]->RuleRef_0 as int;
        assert(b[g] == a[g]);
    }
}

proof fn lemma_helper_stays(a: Seq<Seq<Elem>>, b: Seq<Seq<Elem>>, lo: int, m: int, hot: bool, i: int)
    requires
        a.len() <= b.len(),
        forall|k: int| 0 <= k < a.len() ==> #[trigger] b[k] == a[k],
        0 <= m,
        0 <= i < a.len(),
        helper(a, lo, m, hot, i),
    ensures
        helper(b, lo, m, hot, i),
{
    assert(b[i] == a[i]);
    if !refs_in(a[i], lo, m, hot, i) {
        let t = a[i][0]->RuleRef_0 as int;
        lemma_firm_stays(a, b, m, t);
    }
}

pub proof fn lemma_helped_on(d: Draft, e: Draft, f: Draft, all: Seq<Seq<char>>, lo: int, hot: bool)
    requires
        helped(d, e, all, lo, hot),
        helped(e, f, all, lo, hot),
    ensures
        helped(d, f, all, lo, hot),
{
    assert forall|i: int| 0 <= i < d.rules.len() implies #[trigger] f.rules[i] == d.rules[i] by {
        assert(e.rules[i] == d.rules[i]);
    }
    assert forall|i: int| d.rules.len() <= i < f.rules.len() implies #[trigger] helper(
        f.rules,
        lo,
        all.len() as int,
        hot,
        i,
    ) by {
        if i < e.rules.len() {
            assert(helper(e.rules, lo, all.len() as int, hot, i));
            lemma_helper_stays(e.rules, f.rules, lo, all.len() as int, hot, i);
        }
    }
}

proof fn lemma_refs_wider(row: Seq<Elem>, lo: int, m: int, hot: bool, hi: int, wider: int)
    requires
        refs_in(row, lo, m, hot, hi),
        hi <= wider,
    ensures
        refs_in(row, lo, m, hot, wider),
{
}

proof fn lemma_refs_concat(a: Seq<Elem>, b: Seq<Elem>, lo: int, m: int, hot: bool, hi: int)
    requires
        refs_in(a, lo, m, hot, hi),
        refs_in(b, lo, m, hot, hi),
    ensures
        refs_in(a + b, lo, m, hot, hi),
{
    let c = a + b;
    assert forall|i: int| 0 <= i < c.len() implies match #[trigger] c[i] {
        Elem::RuleRef(t) => (lo <= t < hi) || (hot && t < m && t < hi),
        _ => true,
    } by {
        if i < a.len() {
            assert(c[i] == a[i]);
        } else {
            assert(c[i] == b[i - a.len()]);
        }
    }
}

/// A helper's name is new.
proof fn lemma_new_name(d: Draft, all: Seq<Seq<char>>, kind: char)
    requires
        numbered(d, all),
    ensures
        name_index(d.names, helper_name(kind, d)) < 0,
        helper_name(kind, d).len() >= 3,
        helper_name(kind, d).skip(3) == decimal(d.rules.len()),
{
    let name = helper_name(kind, d);
    assert(name.skip(3) =~= decimal(d.rules.len()));
    let p = name_index(d.names, name);
    lemma_name_index(d.names, name);
    if p >= 0 {
        assert(d.names[p] == name);
        if p < all.len() {
            assert(d.names[p] == all[p] && !hidden(all[p]));
        } else {
            assert(d.names[p].skip(3) == decimal(p as nat));
            lemma_decimal_differs(p as nat, d.rules.len());
        }
    }
}

/// A draft with one more helper rule.
pub open spec fn more(d: Draft, kind: char, row: Seq<Elem>) -> Draft {
    Draft { names: d.names.push(helper_name(kind, d)), rules: d.rules.push(row) }
}

/// A new helper rule comes behind the others.
pub proof fn lemma_more(d: Draft, all: Seq<Seq<char>>, kind: char, row: Seq<Elem>)
    requires
        numbered(d, all),
        row.len() == 0 || shaped(row),
    ensures
        interned(d, helper_name(kind, d)) == (more(d, kind, seq![]), d.rules.len() as int),
        defined(more(d, kind, seq![]), d.rules.len() as int, row) == more(d, kind, row),
        numbered(more(d, kind, row), all),
{
    lemma_new_name(d, all, kind);
    let e = more(d, kind, row);
    assert(more(d, kind, seq![]).rules.update(d.rules.len() as int, row) =~= e.rules);
    assert forall|i: int| all.len() <= i < e.names.len() implies (#[trigger] e.names[i]).len() >= 3 && e.names[i].skip(3)
        == decimal(i as nat) by {
        if i < d.names.len() {
            assert(e.names[i] == d.names[i]);
        }
    }
    assert forall|i: int| 0 <= i < all.len() implies #[trigger] e.names[i] == all[i] && !hidden(all[i]) by {
        assert(e.names[i] == d.names[i]);
    }
    assert forall|i: int| 0 <= i < e.rules.len() && e.rules[i].len() > 0 implies shaped(#[trigger] e.rules[i]) by {
        if i < d.rules.len() {
            assert(e.rules[i] == d.rules[i]);
        }
    }
}

/// A rule that refers to rules before it becomes a helper.
proof fn lemma_with(d: Draft, all: Seq<Seq<char>>, row: Seq<Elem>, lo: int, hot: bool)
    requires
        numbered(d, all),
        shaped(row),
        refs_in(row, lo, all.len() as int, hot, d.rules.len() as int),
    ensures
        with_rule(d, row) == (more(d, 'r', row), d.rules.len() as int),
        helped(d, more(d, 'r', row), all, lo, hot),
{
    lemma_more(d, all, 'r', row);
    let e = more(d, 'r', row);
    lemma_refs_wider(row, lo, all.len() as int, hot, d.rules.len() as int, e.rules.len() as int);
    assert forall|i: int| d.rules.len() <= i < e.rules.len() implies #[trigger] helper(
        e.rules,
        lo,
        all.len() as int,
        hot,
        i,
    ) by {
        assert(e.rules[i] == row);
    }
}

pub proof fn lemma_shaped_push(row: Seq<Elem>)
    requires
        unended(row),
    ensures
        shaped(row.push(Elem::End)),
{
    let r = row.push(Elem::End);
    assert forall|i: int| 0 <= i < r.len() - 1 implies r[i] != Elem::End by {
        assert(r[i] == row[i]);
    }
}

/// What a repeated atom becomes: a reference to the last helper but those that it needs.
proof fn lemma_repeat(d: Draft, all: Seq<Seq<char>>, row: Seq<Elem>, op: char, lo: int, hot: bool)
    requires
        numbered(d, all),
        flat(row),
        all.len() <= lo <= d.rules.len(),
        refs_in(row, lo, all.len() as int, hot, d.rules.len() as int),
        op == '?' || ((op == '*' || op == '+') && {
            let sub = row.push(Elem::End);
            firm_from(sub, 0) || (sub.len() == 2 && match sub[0] {
                Elem::RuleRef(g) => all.len() <= g < d.rules.len() && firm_from(d.rules[g as int], 0),
                _ => false,
            })
        }),
        repeated(d, row, op).0.rules.len() <= usize::MAX,
    ensures
        helped(d, repeated(d, row, op).0, all, lo, hot),
        d.rules.len() <= repeated(d, row, op).1 < repeated(d, row, op).0.rules.len(),
{
    let m = all.len() as int;
    let sub = row.push(Elem::End);
    assert(unended(row));
    lemma_shaped_push(row);
    let n = d.rules.len() as int;
    lemma_refs_concat(row, seq![Elem::End], lo, m, hot, n);
    assert(row + seq![Elem::End] =~= sub);
    lemma_with(d, all, sub, lo, hot);
    let d1 = more(d, 'r', sub);
    if op == '?' {
        let opt = seq![rule_ref(n), Elem::Alt, Elem::End];
        lemma_more(d1, all, 'r', opt);
        assert(repeated(d, row, op).0 == more(d1, 'r', opt));
        lemma_with(d1, all, opt, lo, hot);
        lemma_helped_on(d, d1, more(d1, 'r', opt), all, lo, hot);
    } else {
        assert(firm_above(d1.rules, m, n)) by {
            assert(d1.rules[n] == sub);
            if !firm_from(sub, 0) {
                let g = sub[0]->RuleRef_0 as int;
                assert(d1.rules[g] == d.rules[g]);
            }
        }
        if op == '*' {
            let star = seq![rule_ref(n), rule_ref(n + 1), Elem::Alt, Elem::End];
            lemma_more(d1, all, 'r', star);
            let e = more(d1, 'r', star);
            lemma_loop(d1, e, all, star, n, lo, hot);
            lemma_helped_on(d, d1, e, all, lo, hot);
        } else {
            let plus = seq![rule_ref(n), rule_ref(n + 2), Elem::End];
            let star = seq![rule_ref(n), rule_ref(n + 2), Elem::Alt, Elem::End];
            lemma_more(d1, all, 'r', seq![]);
            let d2 = more(d1, 'r', seq![]);
            lemma_more(d2, all, 's', star);
            lemma_more(d1, all, 'r', plus);
            let e1 = more(d1, 'r', plus);
            assert(helper_name('s', e1) == helper_name('s', d2));
            lemma_more(e1, all, 's', star);
            let e = more(e1, 's', star);
            let d4 = more(d2, 's', star);
            assert(defined(d4, n + 1, plus).rules =~= e.rules);
            assert(defined(d4, n + 1, plus) == e);
            assert(repeated(d, row, op).0 == e);
            assert forall|i: int| 0 <= i < d1.rules.len() implies #[trigger] e.rules[i] == d1.rules[i] by {}
            lemma_firm_stays(d1.rules, e.rules, m, n);
            assert forall|i: int| d1.rules.len() <= i < e.rules.len() implies #[trigger] helper(e.rules, lo, m, hot, i) by {
                assert(i == n + 1 || i == n + 2);
                assert(e.rules[n + 1] == plus);
                assert(e.rules[n + 2] == star);
            }
            lemma_helped_on(d, d1, e, all, lo, hot);
        }
    }
}

/// A rule that repeats one before it becomes a helper.
proof fn lemma_loop(d: Draft, e: Draft, all: Seq<Seq<char>>, star: Seq<Elem>, sub: int, lo: int, hot: bool)
    requires
        numbered(d, all),
        all.len() <= lo <= sub < d.rules.len() < usize::MAX,
        firm_above(d.rules, all.len() as int, sub),
        star == seq![rule_ref(sub), rule_ref(d.rules.len() as int), Elem::Alt, Elem::End],
        e == more(d, 'r', star),
        numbered(e, all),
    ensures
        helped(d, e, all, lo, hot),
{
    lemma_firm_stays(d.rules, e.rules, all.len() as int, sub);
    assert forall|i: int| d.rules.len() <= i < e.rules.len() implies #[trigger] helper(
        e.rules,
        lo,
        all.len() as int,
        hot,
        i,
    ) by {
        assert(e.rules[i] == star);
    }
}

/// What is repeated leaves the rules before it.
pub proof fn lemma_repeat_keeps(d: Draft, all: Seq<Seq<char>>, row: Seq<Elem>, op: char)
    requires
        numbered(d, all),
        flat(row),
        op == '?' || op == '*' || op == '+',
    ensures
        kept(d, repeated(d, row, op).0, all),
        repeated(d, row, op).1 < repeated(d, row, op).0.rules.len(),
{
    let sub = row.push(Elem::End);
    lemma_shaped_push(row);
    let n = d.rules.len() as int;
    lemma_more(d, all, 'r', sub);
    let d1 = more(d, 'r', sub);
    if op == '?' {
        lemma_more(d1, all, 'r', seq![rule_ref(n), Elem::Alt, Elem::End]);
    } else if op == '*' {
        lemma_more(d1, all, 'r', seq![rule_ref(n), rule_ref(n + 1), Elem::Alt, Elem::End]);
    } else {
        let plus = seq![rule_ref(n), rule_ref(n + 2), Elem::End];
        let star = seq![rule_ref(n), rule_ref(n + 2), Elem::Alt, Elem::End];
        lemma_more(d1, all, 'r', seq![]);
        let d2 = more(d1, 'r', seq![]);
        lemma_more(d2, all, 's', star);
        lemma_more(d1, all, 'r', plus);
        let e1 = more(d1, 'r', plus);
        assert(helper_name('s', e1) == helper_name('s', d2));
        lemma_more(e1, all, 's', star);
        let e = more(e1, 's', star);
        assert(defined(more(d2, 's', star), n + 1, plus).rules =~= e.rules);
        assert(repeated(d, row, op).0 == e);
    }
}

/// A class is read as elements of one set.
pub proof fn lemma_class_row(s: Seq<char>, p: int, neg: bool, out: Seq<Elem>)
    requires
        out.len() > 0 ==> takes(out[0]),
        forall|i: int| 0 <= i < out.len() ==> !(#[trigger] out[i] is End || out[i] is Alt || out[i] is RuleRef),
    ensures
        class(s, p, neg, out) matches Ok((row, _)) ==> row.len() > 0 && takes(row[0]) && forall|i: int|
            0 <= i < row.len() ==> !(#[trigger] row[i] is End || row[i] is Alt || row[i] is RuleRef),
    decreases s.len() - p,
{
    if 0 <= p < s.len() && s[p] != ']' {
        match escaped(s, p) {
            Err(_) => {},
            Ok((lo, q)) => {
                if q + 1 < s.len() && s[q] == '-' && s[q + 1] != ']' {
                    match escaped(s, q + 1) {
                        Err(_) => {},
                        Ok((hi, t)) => {
                            if t > p {
                                lemma_class_row(s, t, neg, out + member(out.len() == 0, neg, lo, hi));
                            }
                        },
                    }
                } else if q > p {
                    lemma_class_row(s, q, neg, out + member(out.len() == 0, neg, lo, lo));
                }
            },
        }
    }
}

/// What is known of an atom's row, where rules have numbers.
pub open spec fn piece_row(x: Piece, d: Draft, e: Draft, all: Seq<Seq<char>>, row: Seq<Elem>, lo: int, hot: bool) -> bool {
    &&& helped(d, e, all, lo, hot)
    &&& refs_in(row, lo, all.len() as int, hot, e.rules.len() as int)
    &&& firm_piece(x) ==> match x {
        Piece::Group(_) => row.len() == 1 && match row[0] {
            Elem::RuleRef(g) => all.len() <= g < e.rules.len() && firm_from(e.rules[g as int], 0),
            _ => false,
        },
        _ => row.len() > 0 && takes(row[0]),
    }
}

/// What is known of the row of items.
pub open spec fn items_row(v: Seq<Item>, d: Draft, e: Draft, all: Seq<Seq<char>>, row: Seq<Elem>, lo: int, hot: bool) -> bool {
    &&& helped(d, e, all, lo, hot)
    &&& refs_in(row, lo, all.len() as int, hot, e.rules.len() as int)
    &&& firm_items(v) ==> some_take(row)
    &&& v.len() > 0 && firm_item(v[0]) ==> row.len() > 0 && takes(row[0])
}

/// Whether each alternate takes input at once.
pub open spec fn headed(v: Seq<Seq<Item>>) -> bool {
    forall|k: int| 0 <= k < v.len() ==> (#[trigger] v[k]).len() > 0 && firm_item(v[k][0])
}

/// Whether each alternate of a row that begins at `k` or behind it takes input at once.
pub open spec fn headed_from(row: Seq<Elem>, k: int) -> bool {
    forall|i: int| k <= i < row.len() && (i == k || row[i - 1] == Elem::Alt) ==> takes(#[trigger] row[i])
}

/// What is known of the row of alternates, from `k` on.
pub open spec fn alts_row(
    v: Seq<Seq<Item>>,
    d: Draft,
    e: Draft,
    all: Seq<Seq<char>>,
    row: Seq<Elem>,
    k: int,
    lo: int,
    hot: bool,
) -> bool {
    &&& helped(d, e, all, lo, hot)
    &&& refs_in(row.skip(k), lo, all.len() as int, hot, e.rules.len() as int)
    &&& (forall|j: int| 0 <= j < v.len() ==> firm_items(#[trigger] v[j])) ==> firm_from(row, k)
    &&& headed(v) ==> headed_from(row, k)
}

/// Whether the alternates of a group or of a rule end at `e`.
pub open spec fn ends_at(s: Seq<char>, e: int, g: bool) -> bool {
    e == s.len() || (g && 0 <= e && e + 1 < s.len() && s[e] == ' ' && s[e + 1] == ')')
}

/// Whether an alternate ends at `e`.
pub open spec fn closes(s: Seq<char>, e: int, g: bool) -> bool {
    ends_at(s, e, g) || (0 <= e && e + 1 < s.len() && s[e] == ' ' && s[e + 1] == '|')
}

/// A character that no repetition, bar, closing bracket or white space is.
pub open spec fn opens(c: char) -> bool {
    !white(c) && c != '|' && c != ')' && c != '*' && c != '+' && c != '?' && c != '{'
}

pub proof fn lemma_piece_opens(x: Piece, all: Seq<Seq<char>>, hot: bool)
    requires
        piece_ok(x, all, hot),
    ensures
        piece_text(x).len() > 0,
        opens(piece_text(x)[0]),
{
    match x {
        Piece::Name(n) => {
            assert(name_char(n[0]));
        },
        _ => {},
    }
}

pub proof fn lemma_items_first(v: Seq<Item>, all: Seq<Seq<char>>, hot: bool)
    requires
        v.len() > 0,
        items_ok(v, all, hot),
    ensures
        item_ok(v[0], all, hot),
        piece_ok(v[0].piece, all, hot),
        items_ok(v.drop_first(), all, hot),
        items_text(v) == item_text(v[0]) + items_text(v.drop_first()),
        item_text(v[0]) == seq![' '] + piece_text(v[0].piece) + op_text(v[0].op),
{
    reveal_with_fuel(items_ok, 2);
    reveal_with_fuel(item_ok, 2);
    reveal_with_fuel(items_text, 2);
    reveal_with_fuel(item_text, 2);
}

/// One step of reading a sequence.
pub proof fn lemma_step(
    d: Draft,
    out: Seq<Elem>,
    s: Seq<char>,
    p0: int,
    p: int,
    d1: Draft,
    row1: Seq<Elem>,
    q: int,
    r: int,
    d2: Draft,
    row2: Seq<Elem>,
    t: int,
    g: bool,
)
    requires
        0 <= p0 <= p < t <= s.len(),
        skip_white(s, p0) == p,
        opens(s[p]),
        atom(d, s, p) == Ok::<(Draft, Seq<Elem>, int), GrammarError>((d1, row1, q)),
        r == skip_white(s, q),
        postfix(d1, row1, s, r) == Ok::<(Draft, Seq<Elem>, int), GrammarError>((d2, row2, t)),
    ensures
        sequence(d, out, s, p0, g) == sequence(d2, out + row2, s, t, g),
{
    reveal_with_fuel(sequence, 2);
}

/// What is known of items, from what is known of the first one and of the others.
proof fn lemma_items_join(
    v: Seq<Item>,
    d: Draft,
    d2: Draft,
    f: Draft,
    all: Seq<Seq<char>>,
    row2: Seq<Elem>,
    others: Seq<Elem>,
    lo: int,
    hot: bool,
)
    requires
        v.len() > 0,
        flat(row2),
        flat(others),
        helped(d, d2, all, lo, hot),
        refs_in(row2, lo, all.len() as int, hot, d2.rules.len() as int),
        firm_item(v[0]) ==> row2.len() > 0 && takes(row2[0]),
        items_row(v.drop_first(), d2, f, all, others, lo, hot),
    ensures
        items_row(v, d, f, all, row2 + others, lo, hot),
{
    let rest = v.drop_first();
    let row = row2 + others;
    lemma_helped_on(d, d2, f, all, lo, hot);
    lemma_refs_wider(row2, lo, all.len() as int, hot, d2.rules.len() as int, f.rules.len() as int);
    lemma_refs_concat(row2, others, lo, all.len() as int, hot, f.rules.len() as int);
    if firm_items(v) {
        let j = choose|j: int| 0 <= j < v.len() && firm_item(#[trigger] v[j]);
        if j == 0 {
            assert(takes(row[0]));
        } else {
            assert(firm_item(rest[j - 1]));
            let k = choose|k: int| 0 <= k < others.len() && takes(#[trigger] others[k]);
            assert(takes(row[row2.len() + k]));
        }
    }
}

/// An atom of a rule is read as it was written.
pub proof fn lemma_piece(d: Draft, all: Seq<Seq<char>>, s: Seq<char>, p: int, x: Piece, lo: int, hot: bool)
    requires
        numbered(d, all),
        all.len() <= lo <= d.rules.len(),
        piece_ok(x, all, hot),
        stands(s, p, piece_text(x)),
        x is Name ==> p + piece_text(x).len() == s.len() || !name_char(s[p + piece_text(x).len()]),
    ensures
        atom(d, s, p) matches Ok((e, row, q)) && q == p + piece_text(x).len() && q > p && kept(d, e, all) && flat(row)
            && (e.rules.len() <= usize::MAX ==> piece_row(x, d, e, all, row, lo, hot)) && (x matches Piece::Name(n) ==> row
            == seq![rule_ref(name_index(all, n))]),
    decreases x, 0nat,
{
    let w = piece_text(x);
    lemma_atom(d, s, p);
    lemma_piece_opens(x, all, hot);
    match x {
        Piece::Lit(t) => {
            lemma_literal_at(s, p, t);
            let row = chars_elems(t);
            assert(atom(d, s, p) == Ok::<(Draft, Seq<Elem>, int), GrammarError>((d, row, p + w.len())));
        },
        Piece::Class(c) => {
            assert(stands(s, p, seq!['['] + c + seq![']']));
            lemma_stands_at(s, p, w, 0);
            assert(s[p] == '[');
            assert(atom_end(s, p) == Some(p + c.len() + 2));
            let neg = p + 1 < s.len() && s[p + 1] == '^';
            lemma_class_row(
                s,
                if neg {
                    p + 2
                } else {
                    p + 1
                },
                neg,
                seq![],
            );
        },
        Piece::Name(n) => {
            assert forall|i: int| p <= i < p + n.len() implies name_char(#[trigger] s[i]) by {
                lemma_stands_at(s, p, n, i - p);
                assert(name_char(n[i - p]));
            }
            assert(name_char(s[p]));
            lemma_name_end_is(s, p, p + n.len());
            assert(s.subrange(p, p + n.len()) == n);
            assert forall|i: int| 0 <= i < all.len() implies #[trigger] d.names[i] == all[i] by {}
            lemma_name_index_stays(all, d.names, n);
            lemma_name_index(all, n);
            let id = name_index(all, n);
            assert(interned(d, n) == (d, id));
            assert(atom(d, s, p) == Ok::<(Draft, Seq<Elem>, int), GrammarError>((d, seq![rule_ref(id)], p + n.len())));
        },
        Piece::Group(v) => {
            let t = alts_text(v);
            lemma_stands_parts(s, p, seq!['('] + t, seq![' ', ')']);
            lemma_stands_parts(s, p, seq!['('], t);
            lemma_stands_at(s, p, seq!['('], 0);
            let e = p + 1 + t.len();
            lemma_stands_at(s, e, seq![' ', ')'], 0);
            lemma_stands_at(s, e, seq![' ', ')'], 1);
            assert(s[p] == '(');
            lemma_alts_read(d, all, seq![], s, p + 1, v, true, lo, hot);
            let (d1, row, q) = alternates(d, seq![], s, p + 1, true)->Ok_0;
            assert(q == e + 1);
            assert(skip_white(s, q) == q);
            lemma_more(d1, all, 'r', row);
            let f = more(d1, 'r', row);
            assert(with_rule(d1, row) == (f, d1.rules.len() as int));
            assert(atom(d, s, p) == Ok::<(Draft, Seq<Elem>, int), GrammarError>(
                (f, seq![rule_ref(d1.rules.len() as int)], q + 1),
            ));
            if f.rules.len() <= usize::MAX {
                assert(row.skip(0) =~= row);
                lemma_with(d1, all, row, lo, hot);
                lemma_helped_on(d, d1, f, all, lo, hot);
                assert(f.rules[d1.rules.len() as int] == row);
            }
        },
    }
}

/// An atom with its repetition, where it has one.
pub proof fn lemma_op(d: Draft, d1: Draft, all: Seq<Seq<char>>, row: Seq<Elem>, s: Seq<char>, r: int, i: Item, lo: int, hot: bool)
    requires
        kept(d, d1, all),
        all.len() <= lo <= d.rules.len(),
        item_ok(i, all, hot),
        flat(row),
        d1.rules.len() <= usize::MAX ==> piece_row(i.piece, d, d1, all, row, lo, hot),
        0 <= r,
        match i.op {
            Some(c) => r < s.len() && s[r] == c,
            None => r >= s.len() || (s[r] != '*' && s[r] != '+' && s[r] != '?' && s[r] != '{'),
        },
    ensures
        postfix(d1, row, s, r) matches Ok((d2, row2, t)) && t == r + op_text(i.op).len() && kept(d, d2, all) && flat(row2)
            && (d2.rules.len() <= usize::MAX ==> {
            &&& helped(d, d2, all, lo, hot)
            &&& refs_in(row2, lo, all.len() as int, hot, d2.rules.len() as int)
            &&& firm_item(i) ==> row2.len() > 0 && takes(row2[0])
        }) && (i.op is None ==> row2 == row),
{
    match i.op {
        None => {},
        Some(c) => {
            lemma_repeat_keeps(d1, all, row, c);
            let (d2, id) = repeated(d1, row, c);
            assert(postfix(d1, row, s, r) == Ok::<(Draft, Seq<Elem>, int), GrammarError>((d2, seq![rule_ref(id)], r + 1)));
            assert forall|k: int| 0 <= k < d.rules.len() implies #[trigger] d2.rules[k] == d.rules[k] by {
                assert(d1.rules[k] == d.rules[k]);
            }
            if d2.rules.len() <= usize::MAX {
                if c != '?' {
                    let sub = row.push(Elem::End);
                    if !(i.piece is Group) {
                        assert(sub[0] == row[0]);
                        assert(reaches(sub, 0));
                        assert forall|k: int| 0 <= k < sub.len() && (k == 0 || sub[k - 1] == Elem::Alt) implies #[trigger] reaches(
                            sub,
                            k,
                        ) by {
                            if k > 0 {
                                assert(sub[k - 1] == row[k - 1]);
                            }
                        }
                    } else {
                        assert(sub[0] == row[0]);
                    }
                }
                lemma_repeat(d1, all, row, c, lo, hot);
                lemma_helped_on(d, d1, d2, all, lo, hot);
            }
        },
    }
}

/// The first item is read as it was written.
pub proof fn lemma_item_read(
    d: Draft,
    all: Seq<Seq<char>>,
    out: Seq<Elem>,
    s: Seq<char>,
    p0: int,
    p: int,
    v: Seq<Item>,
    g: bool,
    lo: int,
    hot: bool,
) -> (r: (Draft, Seq<Elem>, int))
    requires
        v.len() > 0,
        numbered(d, all),
        all.len() <= lo <= d.rules.len(),
        items_ok(v, all, hot),
        stands(s, p, items_text(v)),
        p0 == p || (p0 == p + 1 && p < s.len()),
        closes(s, p + items_text(v).len(), g),
    ensures
        sequence(d, out, s, p0, g) == sequence(r.0, out + r.1, s, r.2, g),
        ({
            let p1 = p + item_text(v[0]).len();
            &&& stands(s, p1, items_text(v.drop_first()))
            &&& p1 + items_text(v.drop_first()).len() == p + items_text(v).len()
            &&& r.2 == p1 || (r.2 == p1 + 1 && p1 < s.len())
        }),
        items_ok(v.drop_first(), all, hot),
        kept(d, r.0, all),
        flat(r.1),
        r.0.rules.len() <= usize::MAX ==> {
            &&& helped(d, r.0, all, lo, hot)
            &&& refs_in(r.1, lo, all.len() as int, hot, r.0.rules.len() as int)
            &&& firm_item(v[0]) ==> r.1.len() > 0 && takes(r.1[0])
        },
        v[0].op is None && v[0].piece is Name ==> r.1 == seq![rule_ref(name_index(all, v[0].piece->Name_0))],
    decreases v, 0nat,
{
    let i = v[0];
    let rest = v.drop_first();
    let a = piece_text(i.piece);
    let o = op_text(i.op);
    lemma_items_first(v, all, hot);
    lemma_stands_parts(s, p, item_text(i), items_text(rest));
    lemma_stands_parts(s, p, seq![' '] + a, o);
    lemma_stands_parts(s, p, seq![' '], a);
    lemma_stands_at(s, p, seq![' '], 0);
    lemma_piece_opens(i.piece, all, hot);
    lemma_stands_at(s, p + 1, a, 0);
    let q = p + 1 + a.len();
    assert(p + item_text(i).len() == q + o.len());
    let r = lemma_between(all, s, q, i.op, rest, g, hot);
    lemma_piece(d, all, s, p + 1, i.piece, lo, hot);
    let (d1, row1, _) = atom(d, s, p + 1)->Ok_0;
    assert(skip_white(s, p + 1) == p + 1);
    assert(skip_white(s, p0) == p + 1);
    lemma_op(d, d1, all, row1, s, r, i, lo, hot);
    let (d2, row2, t) = postfix(d1, row1, s, r)->Ok_0;
    lemma_step(d, out, s, p0, p + 1, d1, row1, q, r, d2, row2, t, g);
    (d2, row2, t)
}

pub proof fn lemma_no_items(d: Draft, out: Seq<Elem>, s: Seq<char>, p0: int, p: int, g: bool)
    requires
        0 <= p,
        p0 == p || (p0 == p + 1 && p < s.len()),
        closes(s, p, g),
    ensures
        sequence(d, out, s, p0, g) == Ok::<(Draft, Seq<Elem>, int), GrammarError>(
            (
                d,
                out,
                if p == s.len() {
                    p
                } else {
                    p + 1
                },
            ),
        ),
{
    if p < s.len() {
        assert(skip_white(s, p + 1) == p + 1);
        assert(skip_white(s, p) == p + 1);
    }
}

/// Items are read as they were written.
pub proof fn lemma_items_read(
    d: Draft,
    all: Seq<Seq<char>>,
    out: Seq<Elem>,
    s: Seq<char>,
    p0: int,
    p: int,
    v: Seq<Item>,
    g: bool,
    lo: int,
    hot: bool,
) -> (row: Seq<Elem>)
    requires
        numbered(d, all),
        all.len() <= lo <= d.rules.len(),
        items_ok(v, all, hot),
        stands(s, p, items_text(v)),
        p0 == p || (p0 == p + 1 && p < s.len()),
        closes(s, p + items_text(v).len(), g),
    ensures
        ({
            let e = p + items_text(v).len();
            sequence(d, out, s, p0, g) matches Ok((f, whole, q)) && q == (if e == s.len() {
                e
            } else {
                e + 1
            }) && whole == out + row && kept(d, f, all) && (f.rules.len() <= usize::MAX ==> items_row(
                v,
                d,
                f,
                all,
                row,
                lo,
                hot,
            ))
        }),
        flat(row),
    decreases v, 1nat,
{
    if v.len() == 0 {
        let row: Seq<Elem> = seq![];
        lemma_no_items(d, out, s, p0, p, g);
        assert(out + row =~= out);
        row
    } else {
        let rest = v.drop_first();
        let (d2, row2, t) = lemma_item_read(d, all, out, s, p0, p, v, g, lo, hot);
        let others = lemma_items_read(d2, all, out + row2, s, t, p + item_text(v[0]).len(), rest, g, lo, hot);
        let row = row2 + others;
        let f = sequence(d2, out + row2, s, t, g)->Ok_0.0;
        assert((out + row2) + others =~= out + row);
        assert forall|k: int| 0 <= k < row.len() implies #[trigger] row[k] != Elem::End && row[k] != Elem::Alt by {
            if k < row2.len() {
                assert(row[k] == row2[k]);
            } else {
                assert(row[k] == others[k - row2.len()]);
            }
        }
        assert forall|k: int| 0 <= k < d.rules.len() implies #[trigger] f.rules[k] == d.rules[k] by {
            assert(d2.rules[k] == d.rules[k]);
        }
        if f.rules.len() <= usize::MAX {
            lemma_items_join(v, d, d2, f, all, row2, others, lo, hot);
        }
        row
    }
}

/// What stands behind an atom: its repetition, or the next item, a bar, or the end.
pub proof fn lemma_between(all: Seq<Seq<char>>, s: Seq<char>, q: int, op: Option<char>, rest: Seq<Item>, g: bool, hot: bool) -> (r: int)
    requires
        0 <= q,
        items_ok(rest, all, hot),
        stands(s, q, op_text(op)),
        stands(s, q + op_text(op).len(), items_text(rest)),
        closes(s, q + op_text(op).len() + items_text(rest).len(), g),
        op matches Some(c) ==> c == '?' || c == '*' || c == '+',
    ensures
        r == skip_white(s, q),
        q <= r <= s.len(),
        q == s.len() || !name_char(s[q]),
        match op {
            Some(c) => r == q && r < s.len() && s[r] == c,
            None => (r == q == s.len()) || (r == q + 1 && r < s.len() && s[r] != '*' && s[r] != '+' && s[r] != '?' && s[r]
                != '{'),
        },
{
    match op {
        Some(c) => {
            lemma_stands_at(s, q, op_text(op), 0);
            assert(skip_white(s, q) == q);
            q
        },
        None => {
            if rest.len() > 0 {
                let i = rest[0];
                lemma_items_first(rest, all, hot);
                lemma_piece_opens(i.piece, all, hot);
                let t = items_text(rest);
                assert(t[0] == ' ');
                assert(t[1] == piece_text(i.piece)[0]);
                lemma_stands_at(s, q, t, 0);
                lemma_stands_at(s, q, t, 1);
                assert(skip_white(s, q + 1) == q + 1);
                assert(skip_white(s, q) == q + 1);
                q + 1
            } else if q == s.len() {
                q
            } else {
                assert(skip_white(s, q + 1) == q + 1);
                assert(skip_white(s, q) == q + 1);
                q + 1
            }
        },
    }
}

/// Alternates are read as they were written.
pub proof fn lemma_alts_read(
    d: Draft,
    all: Seq<Seq<char>>,
    out: Seq<Elem>,
    s: Seq<char>,
    p: int,
    v: Seq<Seq<Item>>,
    g: bool,
    lo: int,
    hot: bool,
)
    requires
        numbered(d, all),
        all.len() <= lo <= d.rules.len(),
        alts_ok(v, all, hot),
        unended(out),
        stands(s, p, alts_text(v)),
        ends_at(s, p + alts_text(v).len(), g),
    ensures
        ({
            let e = p + alts_text(v).len();
            alternates(d, out, s, p, g) matches Ok((f, row, q)) && q == (if e == s.len() {
                e
            } else {
                e + 1
            }) && row.len() > out.len() && row.take(out.len() as int) == out && shaped(row) && kept(d, f, all) && (f.rules.len()
                <= usize::MAX ==> alts_row(v, d, f, all, row, out.len() as int, lo, hot))
        }),
    decreases v, 2nat,
{
    let m = all.len() as int;
    let w = items_text(v[0]);
    let k = out.len() as int;
    if v.len() == 1 {
        let r1 = lemma_items_read(d, all, seq![], s, p, p, v[0], g, lo, hot);
        let (f, row1, q) = sequence(d, seq![], s, p, g)->Ok_0;
        assert(row1 =~= r1);
        assert(skip_white(s, q) == q);
        let row = (out + r1).push(Elem::End);
        assert(alternates(d, out, s, p, g) == Ok::<(Draft, Seq<Elem>, int), GrammarError>((f, row, q)));
        assert(unended(out + r1));
        lemma_shaped_push(out + r1);
        assert(row.take(k) =~= out);
        if f.rules.len() <= usize::MAX {
            lemma_refs_concat(r1, seq![Elem::End], lo, m, hot, f.rules.len() as int);
            assert(row.skip(k) =~= r1 + seq![Elem::End]);
            lemma_row_firm(row, k, r1, v);
        }
    } else {
        let rest = v.drop_first();
        lemma_stands_parts(s, p, w + seq![' ', '|'], alts_text(rest));
        lemma_stands_parts(s, p, w, seq![' ', '|']);
        let e1 = p + w.len();
        lemma_stands_at(s, e1, seq![' ', '|'], 0);
        lemma_stands_at(s, e1, seq![' ', '|'], 1);
        let r1 = lemma_items_read(d, all, seq![], s, p, p, v[0], g, lo, hot);
        let (d1, row1, q) = sequence(d, seq![], s, p, g)->Ok_0;
        assert(row1 =~= r1);
        assert(q == e1 + 1);
        assert(skip_white(s, q) == q);
        let out1 = (out + r1).push(Elem::Alt);
        assert(unended(out1));
        lemma_alts_read(d1, all, out1, s, q + 1, rest, g, lo, hot);
        let (f, row, _) = alternates(d1, out1, s, q + 1, g)->Ok_0;
        assert(alternates(d, out, s, p, g) == alternates(d1, out1, s, q + 1, g));
        assert(row.take(k) =~= out1.take(k));
        assert(out1.take(k) =~= out);
        assert forall|j: int| 0 <= j < d.rules.len() implies #[trigger] f.rules[j] == d.rules[j] by {
            assert(d1.rules[j] == d.rules[j]);
        }
        if f.rules.len() <= usize::MAX {
            lemma_helped_on(d, d1, f, all, lo, hot);
            lemma_refs_wider(r1, lo, m, hot, d1.rules.len() as int, f.rules.len() as int);
            lemma_refs_concat(r1, seq![Elem::Alt], lo, m, hot, f.rules.len() as int);
            lemma_refs_concat(r1 + seq![Elem::Alt], row.skip(out1.len() as int), lo, m, hot, f.rules.len() as int);
            assert(row.skip(k) =~= (r1 + seq![Elem::Alt]) + row.skip(out1.len() as int)) by {
                let n = out1.len() as int;
                let whole = (r1 + seq![Elem::Alt]) + row.skip(n);
                assert(row.take(n) == out1);
                assert forall|j: int| 0 <= j < whole.len() implies #[trigger] row.skip(k)[j] == whole[j] by {
                    if j <= r1.len() {
                        assert(row.take(n)[k + j] == out1[k + j]);
                    }
                }
            }
            lemma_rows_firm(row, k, r1, out1, v);
        }
    }
}

/// The last alternate of a row takes input as its items do.
proof fn lemma_row_firm(row: Seq<Elem>, k: int, r1: Seq<Elem>, v: Seq<Seq<Item>>)
    requires
        0 <= k,
        row.len() == k + r1.len() + 1,
        row.skip(k) == r1 + seq![Elem::End],
        flat(r1),
        v.len() == 1,
        firm_items(v[0]) ==> some_take(r1),
        v[0].len() > 0 && firm_item(v[0][0]) ==> r1.len() > 0 && takes(r1[0]),
    ensures
        (forall|j: int| 0 <= j < v.len() ==> firm_items(#[trigger] v[j])) ==> firm_from(row, k),
        headed(v) ==> headed_from(row, k),
{
    assert forall|j: int| 0 <= j < r1.len() implies row[k + j] == #[trigger] r1[j] by {
        assert(row.skip(k)[j] == r1[j]);
    }
    assert forall|i: int| k < i < row.len() implies #[trigger] row[i - 1] != Elem::Alt by {
        assert(row[k + (i - 1 - k)] == r1[i - 1 - k]);
    }
    if forall|j: int| 0 <= j < v.len() ==> firm_items(#[trigger] v[j]) {
        assert(firm_items(v[0]));
        lemma_row_reaches(row, k, r1);
    }
    if headed(v) {
        assert(v[0].len() > 0 && firm_item(v[0][0]));
        assert(row[k + 0] == r1[0]);
    }
}

proof fn lemma_row_reaches(row: Seq<Elem>, k: int, r1: Seq<Elem>)
    requires
        0 <= k,
        k + r1.len() <= row.len(),
        forall|j: int| 0 <= j < r1.len() ==> row[k + j] == #[trigger] r1[j],
        flat(r1),
        some_take(r1),
    ensures
        reaches(row, k),
{
    let j = choose|j: int| 0 <= j < r1.len() && takes(#[trigger] r1[j]);
    assert(takes(row[k + j]));
    assert forall|i: int| k <= i < k + j implies #[trigger] row[i] != Elem::End && row[i] != Elem::Alt by {
        assert(row[k + (i - k)] == r1[i - k]);
    }
}

/// The alternates of a row take input as their items do.
proof fn lemma_rows_firm(row: Seq<Elem>, k: int, r1: Seq<Elem>, out1: Seq<Elem>, v: Seq<Seq<Item>>)
    requires
        0 <= k,
        v.len() > 1,
        out1.len() == k + r1.len() + 1,
        out1.len() <= row.len(),
        row.skip(k) == (r1 + seq![Elem::Alt]) + row.skip(out1.len() as int),
        flat(r1),
        firm_items(v[0]) ==> some_take(r1),
        v[0].len() > 0 && firm_item(v[0][0]) ==> r1.len() > 0 && takes(r1[0]),
        (forall|j: int| 0 <= j < v.drop_first().len() ==> firm_items(#[trigger] v.drop_first()[j])) ==> firm_from(
            row,
            out1.len() as int,
        ),
        headed(v.drop_first()) ==> headed_from(row, out1.len() as int),
    ensures
        (forall|j: int| 0 <= j < v.len() ==> firm_items(#[trigger] v[j])) ==> firm_from(row, k),
        headed(v) ==> headed_from(row, k),
{
    let rest = v.drop_first();
    let n = out1.len() as int;
    assert forall|j: int| 0 <= j < r1.len() implies row[k + j] == #[trigger] r1[j] by {
        assert(row.skip(k)[j] == r1[j]);
    }
    assert forall|i: int| k < i < n implies #[trigger] row[i - 1] != Elem::Alt by {
        assert(row[k + (i - 1 - k)] == r1[i - 1 - k]);
    }
    if forall|j: int| 0 <= j < v.len() ==> firm_items(#[trigger] v[j]) {
        assert forall|j: int| 0 <= j < rest.len() implies firm_items(#[trigger] rest[j]) by {
            assert(firm_items(v[j + 1]));
        }
        assert(firm_items(v[0]));
        lemma_row_reaches(row, k, r1);
        assert forall|i: int| k <= i < row.len() && (i == k || row[i - 1] == Elem::Alt) implies #[trigger] reaches(row, i) by {
            if i > k {
                assert(i >= n);
            }
        }
    }
    if headed(v) {
        assert forall|j: int| 0 <= j < rest.len() implies (#[trigger] rest[j]).len() > 0 && firm_item(rest[j][0]) by {
            assert(v[j + 1].len() > 0 && firm_item(v[j + 1][0]));
        }
        assert(v[0].len() > 0 && firm_item(v[0][0]));
        assert(row[k + 0] == r1[0]);
        assert forall|i: int| k <= i < row.len() && (i == k || row[i - 1] == Elem::Alt) implies takes(#[trigger] row[i]) by {
            if i > k {
                assert(i >= n);
            }
        }
    }
}

/// Whether each alternate is the name of a rule.
pub open spec fn names_only(v: Seq<Seq<Item>>) -> bool {
    forall|k: int| 0 <= k < v.len() ==> (#[trigger] v[k]).len() == 1 && v[k][0].op is None && v[k][0].piece is Name
}

/// Whether the references of a row from `k` on are to rules that these alternates name.
pub open spec fn names_row(v: Seq<Seq<Item>>, all: Seq<Seq<char>>, row: Seq<Elem>, k: int) -> bool {
    forall|i: int| k <= i < row.len() ==> match #[trigger] row[i] {
        Elem::RuleRef(t) => t < all.len() && exists|j: int|
            0 <= j < v.len() && (#[trigger] v[j])[0].piece == Piece::Name(all[t as int]),
        _ => true,
    }
}

/// One name is read as a reference.
proof fn lemma_name_read(d: Draft, all: Seq<Seq<char>>, s: Seq<char>, p: int, v: Seq<Item>, g: bool) -> (id: int)
    requires
        numbered(d, all),
        items_ok(v, all, true),
        v.len() == 1,
        v[0].op is None,
        v[0].piece is Name,
        stands(s, p, items_text(v)),
        closes(s, p + items_text(v).len(), g),
    ensures
        ({
            let e = p + items_text(v).len();
            sequence(d, seq![], s, p, g) matches Ok((f, row, q)) && q == (if e == s.len() {
                e
            } else {
                e + 1
            }) && row == seq![rule_ref(id)] && kept(d, f, all)
        }),
        0 <= id < all.len(),
        v[0].piece == Piece::Name(all[id]),
{
    let n = v[0].piece->Name_0;
    lemma_items_first(v, all, true);
    lemma_name_index(all, n);
    let rest = v.drop_first();
    let (d2, row2, t) = lemma_item_read(d, all, seq![], s, p, p, v, g, d.rules.len() as int, true);
    assert(items_text(rest) =~= seq![]);
    lemma_no_items(d2, seq![] + row2, s, t, p + items_text(v).len(), g);
    assert(Seq::<Elem>::empty() + row2 =~= row2);
    name_index(all, n)
}

/// Names are read as references to their rules.
pub proof fn lemma_names_read(d: Draft, all: Seq<Seq<char>>, out: Seq<Elem>, s: Seq<char>, p: int, v: Seq<Seq<Item>>)
    requires
        numbered(d, all),
        all.len() <= usize::MAX,
        alts_ok(v, all, true),
        names_only(v),
        stands(s, p, alts_text(v)),
        p + alts_text(v).len() == s.len(),
    ensures
        alternates(d, out, s, p, false) matches Ok((f, row, q)) && out.len() <= row.len() && row.take(out.len() as int) == out
            && names_row(v, all, row, out.len() as int),
    decreases v.len(),
{
    let w = items_text(v[0]);
    let k = out.len() as int;
    reveal_with_fuel(alts_ok, 2);
    assert(v[0].len() == 1 && v[0][0].op is None && v[0][0].piece is Name);
    if v.len() == 1 {
        let id = lemma_name_read(d, all, s, p, v[0], false);
        let (f, row1, q) = sequence(d, seq![], s, p, false)->Ok_0;
        assert(skip_white(s, q) == q);
        let row = (out + row1).push(Elem::End);
        assert(alternates(d, out, s, p, false) == Ok::<(Draft, Seq<Elem>, int), GrammarError>((f, row, q)));
        assert(row.take(k) =~= out);
        assert(v[0][0].piece == Piece::Name(all[id]));
    } else {
        let rest = v.drop_first();
        lemma_stands_parts(s, p, w + seq![' ', '|'], alts_text(rest));
        lemma_stands_parts(s, p, w, seq![' ', '|']);
        let e1 = p + w.len();
        lemma_stands_at(s, e1, seq![' ', '|'], 0);
        lemma_stands_at(s, e1, seq![' ', '|'], 1);
        let id = lemma_name_read(d, all, s, p, v[0], false);
        let (d1, row1, q) = sequence(d, seq![], s, p, false)->Ok_0;
        assert(skip_white(s, q) == q);
        let out1 = (out + row1).push(Elem::Alt);
        assert forall|j: int| 0 <= j < rest.len() implies (#[trigger] rest[j]).len() == 1 && rest[j][0].op is None
            && rest[j][0].piece is Name by {
            assert(rest[j] == v[j + 1]);
        }
        lemma_names_read(d1, all, out1, s, q + 1, rest);
        assert(alternates(d, out, s, p, false) == alternates(d1, out1, s, q + 1, false));
        let row = alternates(d1, out1, s, q + 1, false)->Ok_0.1;
        assert(row.take(k) =~= out1.take(k));
        assert(out1.take(k) =~= out);
        assert(v[0][0].piece == Piece::Name(all[id]));
        assert forall|i: int| k <= i < row.len() implies match #[trigger] row[i] {
            Elem::RuleRef(t) => t < all.len() && exists|j: int|
                0 <= j < v.len() && (#[trigger] v[j])[0].piece == Piece::Name(all[t as int]),
            _ => true,
        } by {
            if i < out1.len() {
                assert(row.take(out1.len() as int)[i] == out1[i]);
            } else if let Elem::RuleRef(t) = row[i] {
                let j = choose|j: int| 0 <= j < rest.len() && (#[trigger] rest[j])[0].piece == Piece::Name(all[t as int]);
                assert(v[j + 1] == rest[j]);
            }
        }
    }
}

} // verus!
