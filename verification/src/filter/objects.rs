//! What the grammar of a schema's object reads: an object with the members that it must have.
use vstd::prelude::*;
use crate::filter::automaton::Elem;
use crate::filter::json_schema::{
    def_names, fresh, is_required, lists_text, is_text, members, node, object_body, prelude, schema_text, sketch_of, Sketch,
};
use crate::filter::language::{codes, in_language};
use crate::filter::meaning::{
    alts_mean, as_alts, item_means, items_mean, piece_means, written_rules_mean_what_they_say,
};
use crate::filter::orders::names_of;
use crate::filter::prelude_shapes::{choice, cons, enclosed, group, known, lemma_choice_text, lit, marked, name, nil, one};
use crate::filter::ranking::{
    lemma_basic_names, lemma_object_form, meant, object_items, optional_items, pair_of, pairs, required_items, symbols_known,
};
use crate::filter::repeats::may_repeat;
use crate::filter::schemas::{
    all_rules, lemma_members_formed, lemma_put_there, lemma_schema_rules, picked, ranked, sketched,
};
use crate::filter::shapes::{Item, Piece};
use crate::filter::syntax::{grammar_of, name_index};
use crate::json::{json_string, list_at, member, text_at, Json};

verus! {

/// A key, and the rule of its value.
pub type Slot = (Seq<char>, int);

/// Whether `text` is white space, a mark and white space; `ws` is the rule of white space.
pub open spec fn mark_text(rs: Seq<Seq<Elem>>, ws: int, mark: char, text: Seq<u32>) -> bool {
    exists|a: Seq<u32>, b: Seq<u32>|
        #![trigger in_language(rs, ws, a), in_language(rs, ws, b)]
        in_language(rs, ws, a) && in_language(rs, ws, b) && text == a + seq![mark as u32] + b
}

/// Whether `text` is a member of an object: the quoted key, a colon and a value.
pub open spec fn member_text(rs: Seq<Seq<Elem>>, ws: int, m: Slot, text: Seq<u32>) -> bool {
    exists|a: Seq<u32>, b: Seq<u32>|
        #![trigger mark_text(rs, ws, ':', a), in_language(rs, m.1, b)]
        mark_text(rs, ws, ':', a) && in_language(rs, m.1, b) && text == codes(json_string(m.0)) + a + b
}

/// Whether `text` is a comma and a member.
pub open spec fn further_text(rs: Seq<Seq<Elem>>, ws: int, m: Slot, text: Seq<u32>) -> bool {
    exists|a: Seq<u32>, b: Seq<u32>|
        #![trigger mark_text(rs, ws, ',', a), member_text(rs, ws, m, b)]
        mark_text(rs, ws, ',', a) && member_text(rs, ws, m, b) && text == a + b
}

/// Whether `text` is some members, each behind a comma.
pub open spec fn tail_text(rs: Seq<Seq<Elem>>, ws: int, ms: Seq<Slot>, text: Seq<u32>) -> bool
    decreases ms.len(),
{
    if ms.len() == 0 {
        text.len() == 0
    } else {
        exists|k: int|
            0 <= k <= text.len() && tail_text(rs, ws, ms.drop_last(), text.take(k)) && #[trigger] further_text(
                rs,
                ws,
                ms.last(),
                text.skip(k),
            )
    }
}

/// Whether `text` is some members with commas between them.
pub open spec fn members_text(rs: Seq<Seq<Elem>>, ws: int, ms: Seq<Slot>, text: Seq<u32>) -> bool {
    if ms.len() == 0 {
        text.len() == 0
    } else {
        exists|a: Seq<u32>, b: Seq<u32>|
            #![trigger member_text(rs, ws, ms[0], a), tail_text(rs, ws, ms.drop_first(), b)]
            member_text(rs, ws, ms[0], a) && tail_text(rs, ws, ms.drop_first(), b) && text == a + b
    }
}

/// Whether `text` is an object with just these members, in this order.
pub open spec fn object_text(rs: Seq<Seq<Elem>>, ws: int, ms: Seq<Slot>, text: Seq<u32>) -> bool {
    exists|a: Seq<u32>, b: Seq<u32>, c: Seq<u32>|
        #![trigger in_language(rs, ws, a), members_text(rs, ws, ms, b), in_language(rs, ws, c)]
        in_language(rs, ws, a) && members_text(rs, ws, ms, b) && in_language(rs, ws, c) && text == seq!['{' as u32] + a
            + b + c + seq!['}' as u32]
}

pub proof fn lemma_cons_split(
    rs: Seq<Seq<Elem>>,
    all: Seq<Seq<char>>,
    i: Item,
    v: Seq<Item>,
    loose: bool,
    text: Seq<u32>,
) -> (r: (Seq<u32>, Seq<u32>))
    requires
        items_mean(rs, all, cons(i, v), loose, text),
    ensures
        text == r.0 + r.1,
        item_means(rs, all, i, loose, r.0),
        items_mean(rs, all, v, loose, r.1),
{
    let w = cons(i, v);
    assert(w[0] == i);
    assert(w.drop_first() =~= v);
    let k = choose|k: int|
        #![trigger text.take(k)]
        0 <= k <= text.len() && item_means(rs, all, w[0], loose, text.take(k)) && items_mean(
            rs,
            all,
            w.drop_first(),
            loose,
            text.skip(k),
        );
    assert(text =~= text.take(k) + text.skip(k));
    (text.take(k), text.skip(k))
}

pub proof fn lemma_cons_join(
    rs: Seq<Seq<Elem>>,
    all: Seq<Seq<char>>,
    i: Item,
    v: Seq<Item>,
    loose: bool,
    a: Seq<u32>,
    b: Seq<u32>,
)
    requires
        item_means(rs, all, i, loose, a),
        items_mean(rs, all, v, loose, b),
    ensures
        items_mean(rs, all, cons(i, v), loose, a + b),
{
    let w = cons(i, v);
    let text = a + b;
    assert(w[0] == i);
    assert(w.drop_first() =~= v);
    assert(text.take(a.len() as int) =~= a);
    assert(text.skip(a.len() as int) =~= b);
}

pub proof fn lemma_concat_split(
    rs: Seq<Seq<Elem>>,
    all: Seq<Seq<char>>,
    u: Seq<Item>,
    v: Seq<Item>,
    loose: bool,
    text: Seq<u32>,
) -> (r: (Seq<u32>, Seq<u32>))
    requires
        items_mean(rs, all, u + v, loose, text),
    ensures
        text == r.0 + r.1,
        items_mean(rs, all, u, loose, r.0),
        items_mean(rs, all, v, loose, r.1),
    decreases u.len(),
{
    if u.len() == 0 {
        assert(u + v =~= v);
        let none: Seq<u32> = seq![];
        assert(text =~= none + text);
        (none, text)
    } else {
        let rest = u.drop_first();
        assert(u + v =~= cons(u[0], rest + v));
        let (a, b) = lemma_cons_split(rs, all, u[0], rest + v, loose, text);
        let (x, y) = lemma_concat_split(rs, all, rest, v, loose, b);
        lemma_cons_join(rs, all, u[0], rest, loose, a, x);
        assert(cons(u[0], rest) =~= u);
        assert(text =~= (a + x) + y);
        (a + x, y)
    }
}

pub proof fn lemma_concat_join(
    rs: Seq<Seq<Elem>>,
    all: Seq<Seq<char>>,
    u: Seq<Item>,
    v: Seq<Item>,
    loose: bool,
    a: Seq<u32>,
    b: Seq<u32>,
)
    requires
        items_mean(rs, all, u, loose, a),
        items_mean(rs, all, v, loose, b),
    ensures
        items_mean(rs, all, u + v, loose, a + b),
    decreases u.len(),
{
    if u.len() == 0 {
        assert(u + v =~= v);
        assert(a + b =~= b);
    } else {
        let rest = u.drop_first();
        assert(cons(u[0], rest) =~= u);
        let (x, y) = lemma_cons_split(rs, all, u[0], rest, loose, a);
        lemma_concat_join(rs, all, rest, v, loose, y, b);
        lemma_cons_join(rs, all, u[0], rest + v, loose, x, y + b);
        assert(u + v =~= cons(u[0], rest + v));
        assert(x + (y + b) =~= a + b);
    }
}

pub proof fn lemma_nil_mean(rs: Seq<Seq<Elem>>, all: Seq<Seq<char>>, loose: bool, text: Seq<u32>)
    ensures
        items_mean(rs, all, nil(), loose, text) <==> text.len() == 0,
{
}

/// One item reads what it reads with nothing behind it.
pub proof fn lemma_single(rs: Seq<Seq<Elem>>, all: Seq<Seq<char>>, i: Item, loose: bool, text: Seq<u32>)
    ensures
        items_mean(rs, all, cons(i, nil()), loose, text) <==> item_means(rs, all, i, loose, text),
{
    if items_mean(rs, all, cons(i, nil()), loose, text) {
        let (a, b) = lemma_cons_split(rs, all, i, nil(), loose, text);
        lemma_nil_mean(rs, all, loose, b);
        assert(a + b =~= a);
    }
    if item_means(rs, all, i, loose, text) {
        let none: Seq<u32> = seq![];
        lemma_nil_mean(rs, all, loose, none);
        lemma_cons_join(rs, all, i, nil(), loose, text, none);
        assert(text + none =~= text);
    }
}

pub proof fn lemma_leaf(rs: Seq<Seq<Elem>>, all: Seq<Seq<char>>, t: Seq<char>, n: Seq<char>, loose: bool, text: Seq<u32>)
    ensures
        item_means(rs, all, lit(t), loose, text) <==> text == codes(t),
        item_means(rs, all, name(n), loose, text) <==> in_language(rs, name_index(all, n), text),
{
    reveal_with_fuel(item_means, 2);
    reveal_with_fuel(piece_means, 2);
}

proof fn lemma_code(c: char)
    ensures
        codes(seq![c]) == seq![c as u32],
{
    assert(codes(seq![c]) =~= seq![c as u32]);
}

/// An optional group reads nothing, or what its items read.
pub proof fn lemma_maybe(rs: Seq<Seq<Elem>>, all: Seq<Seq<char>>, v: Seq<Item>, loose: bool, text: Seq<u32>)
    ensures
        item_means(rs, all, group(one(v), Some('?')), loose, text) <==> text.len() == 0 || items_mean(
            rs,
            all,
            v,
            loose,
            text,
        ),
{
    let i = group(one(v), Some('?'));
    let alts = one(v);
    assert(i.piece == Piece::Group(alts));
    assert forall|t: Seq<u32>| piece_means(rs, all, i.piece, loose, t) <==> #[trigger] items_mean(rs, all, v, loose, t) by {
        assert(piece_means(rs, all, i.piece, loose, t) == alts_mean(rs, all, alts, loose, t));
        if items_mean(rs, all, v, loose, t) {
            assert(items_mean(rs, all, alts[0], loose, t));
            assert(alts_mean(rs, all, alts, loose, t));
        }
        if alts_mean(rs, all, alts, loose, t) {
            let j = choose|j: int| 0 <= j < alts.len() && items_mean(rs, all, #[trigger] alts[j], loose, t);
            assert(alts[j] == v);
        }
    }
    if item_means(rs, all, i, loose, text) {
        let ts = choose|ts: Seq<Seq<u32>>| #[trigger]
            ts.flatten() == text && may_repeat('?', ts.len()) && forall|j: int|
                0 <= j < ts.len() ==> piece_means(rs, all, i.piece, loose, #[trigger] ts[j]);
        if ts.len() == 1 {
            ts.lemma_flatten_one_element();
            assert(piece_means(rs, all, i.piece, loose, ts[0]));
            assert(items_mean(rs, all, v, loose, text));
        } else {
            assert(ts.flatten().len() == 0);
        }
    }
    if text.len() == 0 {
        let ts: Seq<Seq<u32>> = seq![];
        assert(ts.flatten() =~= text);
        assert(may_repeat('?', ts.len()));
    }
    if items_mean(rs, all, v, loose, text) {
        let ts = seq![text];
        ts.lemma_flatten_one_element();
        assert(ts.flatten() == text);
        assert(may_repeat('?', ts.len()));
        assert forall|j: int| 0 <= j < ts.len() implies piece_means(rs, all, i.piece, loose, #[trigger] ts[j]) by {}
    }
}

/// Items behind a mark.
pub proof fn lemma_marked_mean(
    rs: Seq<Seq<Elem>>,
    all: Seq<Seq<char>>,
    c: char,
    v: Seq<Item>,
    loose: bool,
    text: Seq<u32>,
)
    ensures
        items_mean(rs, all, marked(c, v), loose, text) <==> exists|a: Seq<u32>, b: Seq<u32>|
            #![trigger mark_text(rs, name_index(all, "ws"@), c, a), items_mean(rs, all, v, loose, b)]
            mark_text(rs, name_index(all, "ws"@), c, a) && items_mean(rs, all, v, loose, b) && text == a + b,
{
    let ws = name_index(all, "ws"@);
    let v1 = cons(name("ws"@), v);
    let v2 = cons(lit(seq![c]), v1);
    lemma_code(c);
    if items_mean(rs, all, marked(c, v), loose, text) {
        let (a, r1) = lemma_cons_split(rs, all, name("ws"@), v2, loose, text);
        let (m, r2) = lemma_cons_split(rs, all, lit(seq![c]), v1, loose, r1);
        let (b, r) = lemma_cons_split(rs, all, name("ws"@), v, loose, r2);
        lemma_leaf(rs, all, seq![c], "ws"@, loose, a);
        lemma_leaf(rs, all, seq![c], "ws"@, loose, m);
        lemma_leaf(rs, all, seq![c], "ws"@, loose, b);
        let x = a + seq![c as u32] + b;
        assert(mark_text(rs, ws, c, x));
        assert(text =~= x + r);
    }
    if exists|a: Seq<u32>, b: Seq<u32>|
        #![trigger mark_text(rs, ws, c, a), items_mean(rs, all, v, loose, b)]
        mark_text(rs, ws, c, a) && items_mean(rs, all, v, loose, b) && text == a + b {
        let (x, r) = choose|a: Seq<u32>, b: Seq<u32>|
            #![trigger mark_text(rs, ws, c, a), items_mean(rs, all, v, loose, b)]
            mark_text(rs, ws, c, a) && items_mean(rs, all, v, loose, b) && text == a + b;
        let (a, b) = choose|a: Seq<u32>, b: Seq<u32>|
            #![trigger in_language(rs, ws, a), in_language(rs, ws, b)]
            in_language(rs, ws, a) && in_language(rs, ws, b) && x == a + seq![c as u32] + b;
        let m = seq![c as u32];
        lemma_leaf(rs, all, seq![c], "ws"@, loose, a);
        lemma_leaf(rs, all, seq![c], "ws"@, loose, m);
        lemma_leaf(rs, all, seq![c], "ws"@, loose, b);
        lemma_cons_join(rs, all, name("ws"@), v, loose, b, r);
        lemma_cons_join(rs, all, lit(seq![c]), v1, loose, m, b + r);
        lemma_cons_join(rs, all, name("ws"@), v2, loose, a, m + (b + r));
        assert(a + (m + (b + r)) =~= text);
    }
}

/// A key and the number of its symbol's rule.
pub open spec fn slot_of(all: Seq<Seq<char>>, p: (Seq<char>, Seq<char>)) -> Slot {
    (p.0, name_index(all, p.1))
}

/// The slots of some pairs.
pub open spec fn slots_of(all: Seq<Seq<char>>, v: Seq<(Seq<char>, Seq<char>)>) -> Seq<Slot> {
    Seq::new(v.len(), |i: int| slot_of(all, v[i]))
}

/// A pair's items read a member.
proof fn lemma_pair_mean(
    rs: Seq<Seq<Elem>>,
    all: Seq<Seq<char>>,
    p: (Seq<char>, Seq<char>),
    loose: bool,
    text: Seq<u32>,
)
    ensures
        items_mean(rs, all, pair_of(p), loose, text) <==> member_text(
            rs,
            name_index(all, "ws"@),
            slot_of(all, p),
            text,
        ),
{
    let ws = name_index(all, "ws"@);
    let m = slot_of(all, p);
    let key = json_string(p.0);
    let sym = cons(name(p.1), nil());
    if items_mean(rs, all, pair_of(p), loose, text) {
        let (k, r) = lemma_cons_split(rs, all, lit(key), marked(':', sym), loose, text);
        lemma_leaf(rs, all, key, p.1, loose, k);
        lemma_marked_mean(rs, all, ':', sym, loose, r);
        let (a, b) = choose|a: Seq<u32>, b: Seq<u32>|
            #![trigger mark_text(rs, ws, ':', a), items_mean(rs, all, sym, loose, b)]
            mark_text(rs, ws, ':', a) && items_mean(rs, all, sym, loose, b) && r == a + b;
        lemma_single(rs, all, name(p.1), loose, b);
        lemma_leaf(rs, all, key, p.1, loose, b);
        assert(in_language(rs, m.1, b));
        assert(text =~= codes(key) + a + b);
    }
    if member_text(rs, ws, m, text) {
        let (a, b) = choose|a: Seq<u32>, b: Seq<u32>|
            #![trigger mark_text(rs, ws, ':', a), in_language(rs, m.1, b)]
            mark_text(rs, ws, ':', a) && in_language(rs, m.1, b) && text == codes(json_string(m.0)) + a + b;
        lemma_leaf(rs, all, key, p.1, loose, b);
        lemma_single(rs, all, name(p.1), loose, b);
        lemma_marked_mean(rs, all, ':', sym, loose, a + b);
        lemma_leaf(rs, all, key, p.1, loose, codes(key));
        lemma_cons_join(rs, all, lit(key), marked(':', sym), loose, codes(key), a + b);
        assert(codes(key) + (a + b) =~= text);
    }
}

/// A pair's items behind a comma read a further member.
proof fn lemma_further_mean(
    rs: Seq<Seq<Elem>>,
    all: Seq<Seq<char>>,
    p: (Seq<char>, Seq<char>),
    loose: bool,
    text: Seq<u32>,
)
    ensures
        items_mean(rs, all, marked(',', pair_of(p)), loose, text) <==> further_text(
            rs,
            name_index(all, "ws"@),
            slot_of(all, p),
            text,
        ),
{
    let ws = name_index(all, "ws"@);
    let m = slot_of(all, p);
    let v = pair_of(p);
    lemma_marked_mean(rs, all, ',', v, loose, text);
    if items_mean(rs, all, marked(',', v), loose, text) {
        let (a, b) = choose|a: Seq<u32>, b: Seq<u32>|
            #![trigger mark_text(rs, ws, ',', a), items_mean(rs, all, v, loose, b)]
            mark_text(rs, ws, ',', a) && items_mean(rs, all, v, loose, b) && text == a + b;
        lemma_pair_mean(rs, all, p, loose, b);
        assert(member_text(rs, ws, m, b));
    }
    if further_text(rs, ws, m, text) {
        let (a, b) = choose|a: Seq<u32>, b: Seq<u32>|
            #![trigger mark_text(rs, ws, ',', a), member_text(rs, ws, m, b)]
            mark_text(rs, ws, ',', a) && member_text(rs, ws, m, b) && text == a + b;
        lemma_pair_mean(rs, all, p, loose, b);
        assert(items_mean(rs, all, v, loose, b));
    }
}

proof fn lemma_tail_push(rs: Seq<Seq<Elem>>, ws: int, ms: Seq<Slot>, a: Seq<u32>, b: Seq<u32>)
    requires
        ms.len() > 0,
        tail_text(rs, ws, ms.drop_last(), a),
        further_text(rs, ws, ms.last(), b),
    ensures
        tail_text(rs, ws, ms, a + b),
{
    let text = a + b;
    let k = a.len() as int;
    assert(text.take(k) =~= a);
    assert(text.skip(k) =~= b);
    assert(further_text(rs, ws, ms.last(), text.skip(k)));
}

proof fn lemma_tail_pop(rs: Seq<Seq<Elem>>, ws: int, ms: Seq<Slot>, text: Seq<u32>) -> (r: (Seq<u32>, Seq<u32>))
    requires
        ms.len() > 0,
        tail_text(rs, ws, ms, text),
    ensures
        text == r.0 + r.1,
        tail_text(rs, ws, ms.drop_last(), r.0),
        further_text(rs, ws, ms.last(), r.1),
{
    let k = choose|k: int|
        0 <= k <= text.len() && tail_text(rs, ws, ms.drop_last(), text.take(k)) && #[trigger] further_text(
            rs,
            ws,
            ms.last(),
            text.skip(k),
        );
    assert(text =~= text.take(k) + text.skip(k));
    (text.take(k), text.skip(k))
}

/// Members with one more behind them.
proof fn lemma_members_push(rs: Seq<Seq<Elem>>, ws: int, ms: Seq<Slot>, m: Slot, a: Seq<u32>, b: Seq<u32>)
    requires
        ms.len() > 0,
        members_text(rs, ws, ms, a),
        further_text(rs, ws, m, b),
    ensures
        members_text(rs, ws, ms.push(m), a + b),
{
    let (x, y) = choose|x: Seq<u32>, y: Seq<u32>|
        #![trigger member_text(rs, ws, ms[0], x), tail_text(rs, ws, ms.drop_first(), y)]
        member_text(rs, ws, ms[0], x) && tail_text(rs, ws, ms.drop_first(), y) && a == x + y;
    let more = ms.push(m);
    let rest = more.drop_first();
    assert(rest =~= ms.drop_first().push(m));
    assert(rest.drop_last() =~= ms.drop_first());
    assert(rest.last() == m);
    assert(tail_text(rs, ws, rest.drop_last(), y));
    lemma_tail_push(rs, ws, rest, y, b);
    assert(more[0] == ms[0]);
    assert(a + b =~= x + (y + b));
}

proof fn lemma_members_pop(rs: Seq<Seq<Elem>>, ws: int, ms: Seq<Slot>, text: Seq<u32>) -> (r: (Seq<u32>, Seq<u32>))
    requires
        ms.len() > 1,
        members_text(rs, ws, ms, text),
    ensures
        text == r.0 + r.1,
        members_text(rs, ws, ms.drop_last(), r.0),
        further_text(rs, ws, ms.last(), r.1),
{
    let (x, y) = choose|x: Seq<u32>, y: Seq<u32>|
        #![trigger member_text(rs, ws, ms[0], x), tail_text(rs, ws, ms.drop_first(), y)]
        member_text(rs, ws, ms[0], x) && tail_text(rs, ws, ms.drop_first(), y) && text == x + y;
    let rest = ms.drop_first();
    let (p, q) = lemma_tail_pop(rs, ws, rest, y);
    let front = ms.drop_last();
    assert(front[0] == ms[0]);
    assert(front.drop_first() =~= rest.drop_last());
    assert(rest.last() == ms.last());
    assert(tail_text(rs, ws, front.drop_first(), p));
    assert(members_text(rs, ws, front, x + p));
    assert(text =~= (x + p) + q);
    (x + p, q)
}

/// One member alone.
proof fn lemma_members_one(rs: Seq<Seq<Elem>>, ws: int, ms: Seq<Slot>, text: Seq<u32>)
    requires
        ms.len() == 1,
    ensures
        members_text(rs, ws, ms, text) <==> member_text(rs, ws, ms[0], text),
{
    let rest = ms.drop_first();
    assert(rest.len() == 0);
    if members_text(rs, ws, ms, text) {
        let (x, y) = choose|x: Seq<u32>, y: Seq<u32>|
            #![trigger member_text(rs, ws, ms[0], x), tail_text(rs, ws, rest, y)]
            member_text(rs, ws, ms[0], x) && tail_text(rs, ws, rest, y) && text == x + y;
        assert(text =~= x);
    }
    if member_text(rs, ws, ms[0], text) {
        let none: Seq<u32> = seq![];
        assert(tail_text(rs, ws, rest, none));
        assert(text =~= text + none);
    }
}

/// The items of required pairs read just these members.
proof fn lemma_required_mean(
    rs: Seq<Seq<Elem>>,
    all: Seq<Seq<char>>,
    v: Seq<(Seq<char>, Seq<char>)>,
    loose: bool,
    text: Seq<u32>,
)
    requires
        v.len() > 0,
    ensures
        items_mean(rs, all, required_items(v), loose, text) <==> members_text(
            rs,
            name_index(all, "ws"@),
            slots_of(all, v),
            text,
        ),
    decreases v.len(),
{
    let ws = name_index(all, "ws"@);
    let ms = slots_of(all, v);
    if v.len() == 1 {
        lemma_pair_mean(rs, all, v[0], loose, text);
        lemma_members_one(rs, ws, ms, text);
    } else {
        let front = v.drop_last();
        assert(ms.drop_last() =~= slots_of(all, front));
        assert(ms.last() == slot_of(all, v.last()));
        let more = marked(',', pair_of(v.last()));
        if items_mean(rs, all, required_items(v), loose, text) {
            let (a, b) = lemma_concat_split(rs, all, required_items(front), more, loose, text);
            lemma_required_mean(rs, all, front, loose, a);
            lemma_further_mean(rs, all, v.last(), loose, b);
            lemma_members_push(rs, ws, ms.drop_last(), ms.last(), a, b);
            assert(ms.drop_last().push(ms.last()) =~= ms);
        }
        if members_text(rs, ws, ms, text) {
            let (a, b) = lemma_members_pop(rs, ws, ms, text);
            lemma_required_mean(rs, all, front, loose, a);
            lemma_further_mean(rs, all, v.last(), loose, b);
            lemma_concat_join(rs, all, required_items(front), more, loose, a, b);
        }
    }
}

/// Whether numbers go up.
pub open spec fn rising(ks: Seq<int>) -> bool {
    forall|i: int, j: int| 0 <= i < j < ks.len() ==> ks[i] < ks[j]
}

/// Whether numbers are places in a list of `n`.
pub open spec fn within(ks: Seq<int>, n: int) -> bool {
    forall|i: int| 0 <= i < ks.len() ==> 0 <= #[trigger] ks[i] < n
}

/// The slots at some places.
pub open spec fn at_places(ms: Seq<Slot>, ks: Seq<int>) -> Seq<Slot> {
    Seq::new(ks.len(), |i: int| ms[ks[i]])
}

/// Whether `text` is further members at some places, in order.
pub open spec fn some_tail(rs: Seq<Seq<Elem>>, ws: int, ms: Seq<Slot>, ks: Seq<int>, text: Seq<u32>) -> bool {
    rising(ks) && within(ks, ms.len() as int) && tail_text(rs, ws, at_places(ms, ks), text)
}

/// The items of optional pairs read some of these members, in order.
proof fn lemma_optional_mean(
    rs: Seq<Seq<Elem>>,
    all: Seq<Seq<char>>,
    v: Seq<(Seq<char>, Seq<char>)>,
    loose: bool,
    text: Seq<u32>,
)
    ensures
        items_mean(rs, all, optional_items(v), loose, text) <==> exists|ks: Seq<int>| #[trigger]
            some_tail(rs, name_index(all, "ws"@), slots_of(all, v), ks, text),
    decreases v.len(),
{
    let ws = name_index(all, "ws"@);
    let ms = slots_of(all, v);
    let none: Seq<int> = seq![];
    if v.len() == 0 {
        lemma_nil_mean(rs, all, loose, text);
        if text.len() == 0 {
            assert(at_places(ms, none).len() == 0);
            assert(some_tail(rs, ws, ms, none, text));
        }
        if exists|ks: Seq<int>| #[trigger] some_tail(rs, ws, ms, ks, text) {
            let ks = choose|ks: Seq<int>| #[trigger] some_tail(rs, ws, ms, ks, text);
            if ks.len() > 0 {
                assert(0 <= ks[0] < ms.len());
            }
            assert(at_places(ms, ks).len() == 0);
        }
    } else {
        let front = v.drop_last();
        let fs = slots_of(all, front);
        let z = v.len() - 1;
        assert(ms[z] == slot_of(all, v.last()));
        let pair = marked(',', pair_of(v.last()));
        let g = group(one(pair), Some('?'));
        if items_mean(rs, all, optional_items(v), loose, text) {
            let (a, b) = lemma_concat_split(rs, all, optional_items(front), cons(g, nil()), loose, text);
            lemma_optional_mean(rs, all, front, loose, a);
            let ks = choose|ks: Seq<int>| #[trigger] some_tail(rs, ws, fs, ks, a);
            assert(at_places(fs, ks) =~= at_places(ms, ks));
            lemma_single(rs, all, g, loose, b);
            lemma_maybe(rs, all, pair, loose, b);
            lemma_further_mean(rs, all, v.last(), loose, b);
            if b.len() == 0 {
                assert(a + b =~= a);
                assert(some_tail(rs, ws, ms, ks, text));
            } else {
                let more = ks.push(z);
                let at = at_places(ms, more);
                assert(at.drop_last() =~= at_places(ms, ks));
                assert(at.last() == ms[z]);
                lemma_tail_push(rs, ws, at, a, b);
                assert(some_tail(rs, ws, ms, more, text));
            }
        }
        if exists|ks: Seq<int>| #[trigger] some_tail(rs, ws, ms, ks, text) {
            let ks = choose|ks: Seq<int>| #[trigger] some_tail(rs, ws, ms, ks, text);
            let at = at_places(ms, ks);
            if ks.len() > 0 && ks.last() == z {
                let less = ks.drop_last();
                let (a, b) = lemma_tail_pop(rs, ws, at, text);
                assert forall|i: int| 0 <= i < less.len() implies 0 <= #[trigger] less[i] < z by {
                    assert(less[i] == ks[i]);
                    assert(ks[i] < ks[ks.len() - 1]);
                    assert(0 <= ks[i]);
                }
                assert(at.drop_last() =~= at_places(fs, less));
                assert(at.last() == ms[z]);
                assert(some_tail(rs, ws, fs, less, a));
                lemma_optional_mean(rs, all, front, loose, a);
                lemma_further_mean(rs, all, v.last(), loose, b);
                lemma_maybe(rs, all, pair, loose, b);
                lemma_single(rs, all, g, loose, b);
                lemma_concat_join(rs, all, optional_items(front), cons(g, nil()), loose, a, b);
            } else {
                assert forall|i: int| 0 <= i < ks.len() implies 0 <= #[trigger] ks[i] < z by {
                    assert(ks[i] <= ks[ks.len() - 1]);
                    assert(ks[ks.len() - 1] < v.len());
                }
                assert(at =~= at_places(fs, ks));
                assert(some_tail(rs, ws, fs, ks, text));
                lemma_optional_mean(rs, all, front, loose, text);
                let empty: Seq<u32> = seq![];
                lemma_maybe(rs, all, pair, loose, empty);
                lemma_single(rs, all, g, loose, empty);
                lemma_concat_join(rs, all, optional_items(front), cons(g, nil()), loose, text, empty);
                assert(text + empty =~= text);
            }
        }
    }
}

/// Members with further ones behind them.
proof fn lemma_members_tail(
    rs: Seq<Seq<Elem>>,
    ws: int,
    ms: Seq<Slot>,
    more: Seq<Slot>,
    a: Seq<u32>,
    b: Seq<u32>,
)
    requires
        ms.len() > 0,
        members_text(rs, ws, ms, a),
        tail_text(rs, ws, more, b),
    ensures
        members_text(rs, ws, ms + more, a + b),
    decreases more.len(),
{
    if more.len() == 0 {
        assert(ms + more =~= ms);
        assert(a + b =~= a);
    } else {
        let (x, y) = lemma_tail_pop(rs, ws, more, b);
        lemma_members_tail(rs, ws, ms, more.drop_last(), a, x);
        lemma_members_push(rs, ws, ms + more.drop_last(), more.last(), a + x, y);
        assert((ms + more.drop_last()).push(more.last()) =~= ms + more);
        assert((a + x) + y =~= a + b);
    }
}

proof fn lemma_members_cut(
    rs: Seq<Seq<Elem>>,
    ws: int,
    ms: Seq<Slot>,
    more: Seq<Slot>,
    text: Seq<u32>,
) -> (r: (Seq<u32>, Seq<u32>))
    requires
        ms.len() > 0,
        members_text(rs, ws, ms + more, text),
    ensures
        text == r.0 + r.1,
        members_text(rs, ws, ms, r.0),
        tail_text(rs, ws, more, r.1),
    decreases more.len(),
{
    if more.len() == 0 {
        assert(ms + more =~= ms);
        let none: Seq<u32> = seq![];
        assert(text =~= text + none);
        (text, none)
    } else {
        let whole = ms + more;
        let (a, z) = lemma_members_pop(rs, ws, whole, text);
        assert(whole.drop_last() =~= ms + more.drop_last());
        assert(whole.last() == more.last());
        let (x, y) = lemma_members_cut(rs, ws, ms, more.drop_last(), a);
        lemma_tail_push(rs, ws, more, y, z);
        assert(text =~= x + (y + z));
        (x, y + z)
    }
}

/// Whether `text` is the required members, and behind them some of the optional ones in order;
/// without required ones nothing, or the first optional one and some of the others in order.
pub open spec fn picks(
    rs: Seq<Seq<Elem>>,
    ws: int,
    req: Seq<Slot>,
    opt: Seq<Slot>,
    ks: Seq<int>,
    text: Seq<u32>,
) -> bool {
    &&& rising(ks)
    &&& within(ks, opt.len() as int)
    &&& req.len() == 0 && ks.len() > 0 ==> ks[0] == 0
    &&& members_text(rs, ws, req + at_places(opt, ks), text)
}

/// The items of an object read its members.
proof fn lemma_inner_mean(
    rs: Seq<Seq<Elem>>,
    all: Seq<Seq<char>>,
    req: Seq<(Seq<char>, Seq<char>)>,
    opt: Seq<(Seq<char>, Seq<char>)>,
    loose: bool,
    text: Seq<u32>,
)
    requires
        req.len() + opt.len() > 0,
    ensures
        items_mean(rs, all, object_items(req, opt), loose, text) <==> exists|ks: Seq<int>| #[trigger]
            picks(rs, name_index(all, "ws"@), slots_of(all, req), slots_of(all, opt), ks, text),
{
    let ws = name_index(all, "ws"@);
    let rq = slots_of(all, req);
    let op = slots_of(all, opt);
    if req.len() > 0 {
        if items_mean(rs, all, object_items(req, opt), loose, text) {
            let (a, b) = lemma_concat_split(rs, all, required_items(req), optional_items(opt), loose, text);
            lemma_required_mean(rs, all, req, loose, a);
            lemma_optional_mean(rs, all, opt, loose, b);
            let ks = choose|ks: Seq<int>| #[trigger] some_tail(rs, ws, op, ks, b);
            lemma_members_tail(rs, ws, rq, at_places(op, ks), a, b);
            assert(picks(rs, ws, rq, op, ks, text));
        }
        if exists|ks: Seq<int>| #[trigger] picks(rs, ws, rq, op, ks, text) {
            let ks = choose|ks: Seq<int>| #[trigger] picks(rs, ws, rq, op, ks, text);
            let (a, b) = lemma_members_cut(rs, ws, rq, at_places(op, ks), text);
            lemma_required_mean(rs, all, req, loose, a);
            assert(some_tail(rs, ws, op, ks, b));
            lemma_optional_mean(rs, all, opt, loose, b);
            lemma_concat_join(rs, all, required_items(req), optional_items(opt), loose, a, b);
        }
    } else {
        let rest = opt.drop_first();
        let re = slots_of(all, rest);
        let x = pair_of(opt[0]) + optional_items(rest);
        let g = group(one(x), Some('?'));
        lemma_single(rs, all, g, loose, text);
        lemma_maybe(rs, all, x, loose, text);
        let first = seq![op[0]];
        if items_mean(rs, all, object_items(req, opt), loose, text) {
            if text.len() == 0 {
                let none: Seq<int> = seq![];
                assert((rq + at_places(op, none)).len() == 0);
                assert(picks(rs, ws, rq, op, none, text));
            } else {
                let (a, b) = lemma_concat_split(rs, all, pair_of(opt[0]), optional_items(rest), loose, text);
                lemma_pair_mean(rs, all, opt[0], loose, a);
                lemma_members_one(rs, ws, first, a);
                lemma_optional_mean(rs, all, rest, loose, b);
                let ks = choose|ks: Seq<int>| #[trigger] some_tail(rs, ws, re, ks, b);
                let up = seq![0int] + Seq::new(ks.len(), |i: int| ks[i] + 1);
                lemma_members_tail(rs, ws, first, at_places(re, ks), a, b);
                assert(rq + at_places(op, up) =~= first + at_places(re, ks)) by {
                    assert forall|i: int| 0 <= i < ks.len() implies op[#[trigger] ks[i] + 1] == re[ks[i]] by {
                        assert(0 <= ks[i] < re.len());
                    }
                }
                assert forall|i: int| 0 <= i < up.len() implies 0 <= #[trigger] up[i] < op.len() by {
                    if i > 0 {
                        assert(0 <= ks[i - 1] < re.len());
                    }
                }
                assert forall|i: int, j: int| 0 <= i < j < up.len() implies up[i] < up[j] by {
                    assert(0 <= ks[j - 1] < re.len());
                    if i > 0 {
                        assert(ks[i - 1] < ks[j - 1]);
                    }
                }
                assert(picks(rs, ws, rq, op, up, text));
            }
        }
        if exists|ks: Seq<int>| #[trigger] picks(rs, ws, rq, op, ks, text) {
            let ks = choose|ks: Seq<int>| #[trigger] picks(rs, ws, rq, op, ks, text);
            if ks.len() == 0 {
                assert((rq + at_places(op, ks)).len() == 0);
                assert(text.len() == 0);
            } else {
                let down = Seq::new((ks.len() - 1) as nat, |i: int| ks[i + 1] - 1);
                assert forall|i: int| 0 <= i < down.len() implies 0 <= #[trigger] down[i] < re.len() by {
                    assert(ks[0] < ks[i + 1]);
                    assert(ks[i + 1] < op.len());
                }
                assert forall|i: int, j: int| 0 <= i < j < down.len() implies down[i] < down[j] by {
                    assert(ks[i + 1] < ks[j + 1]);
                }
                assert(rq + at_places(op, ks) =~= first + at_places(re, down)) by {
                    assert forall|i: int| 0 <= i < down.len() implies op[ks[i + 1]] == re[#[trigger] down[i]] by {
                        assert(0 <= down[i] < re.len());
                    }
                }
                let (a, b) = lemma_members_cut(rs, ws, first, at_places(re, down), text);
                lemma_members_one(rs, ws, first, a);
                lemma_pair_mean(rs, all, opt[0], loose, a);
                assert(some_tail(rs, ws, re, down, b));
                lemma_optional_mean(rs, all, rest, loose, b);
                lemma_concat_join(rs, all, pair_of(opt[0]), optional_items(rest), loose, a, b);
            }
        }
    }
}

/// What stands between braces.
pub proof fn lemma_enclosed_mean(
    rs: Seq<Seq<Elem>>,
    all: Seq<Seq<char>>,
    l: char,
    inner: Seq<Item>,
    r: char,
    loose: bool,
    text: Seq<u32>,
)
    ensures
        items_mean(rs, all, enclosed(l, inner, r), loose, text) <==> exists|a: Seq<u32>, b: Seq<u32>, c: Seq<u32>| #[trigger]
            framed(rs, name_index(all, "ws"@), l, a, b, c, r, text) && items_mean(rs, all, inner, loose, b),
{
    let ws = name_index(all, "ws"@);
    let e1 = cons(lit(seq![r]), nil());
    let e2 = cons(name("ws"@), e1);
    let w = inner + e2;
    let w1 = cons(name("ws"@), w);
    lemma_code(l);
    lemma_code(r);
    if items_mean(rs, all, enclosed(l, inner, r), loose, text) {
        let (x, t1) = lemma_cons_split(rs, all, lit(seq![l]), w1, loose, text);
        let (a, t2) = lemma_cons_split(rs, all, name("ws"@), w, loose, t1);
        let (b, t3) = lemma_concat_split(rs, all, inner, e2, loose, t2);
        let (c, t4) = lemma_cons_split(rs, all, name("ws"@), e1, loose, t3);
        lemma_single(rs, all, lit(seq![r]), loose, t4);
        lemma_leaf(rs, all, seq![l], "ws"@, loose, x);
        lemma_leaf(rs, all, seq![l], "ws"@, loose, a);
        lemma_leaf(rs, all, seq![l], "ws"@, loose, c);
        lemma_leaf(rs, all, seq![r], "ws"@, loose, t4);
        assert(text =~= seq![l as u32] + a + b + c + seq![r as u32]);
        assert(framed(rs, ws, l, a, b, c, r, text));
    }
    if exists|a: Seq<u32>, b: Seq<u32>, c: Seq<u32>| #[trigger]
        framed(rs, ws, l, a, b, c, r, text) && items_mean(rs, all, inner, loose, b) {
        let (a, b, c) = choose|a: Seq<u32>, b: Seq<u32>, c: Seq<u32>| #[trigger]
            framed(rs, ws, l, a, b, c, r, text) && items_mean(rs, all, inner, loose, b);
        let x = seq![l as u32];
        let z = seq![r as u32];
        lemma_leaf(rs, all, seq![l], "ws"@, loose, x);
        lemma_leaf(rs, all, seq![l], "ws"@, loose, a);
        lemma_leaf(rs, all, seq![l], "ws"@, loose, c);
        lemma_leaf(rs, all, seq![r], "ws"@, loose, z);
        lemma_single(rs, all, lit(seq![r]), loose, z);
        lemma_cons_join(rs, all, name("ws"@), e1, loose, c, z);
        lemma_concat_join(rs, all, inner, e2, loose, b, c + z);
        lemma_cons_join(rs, all, name("ws"@), w, loose, a, b + (c + z));
        lemma_cons_join(rs, all, lit(seq![l]), w1, loose, x, a + (b + (c + z)));
        assert(x + (a + (b + (c + z))) =~= text);
    }
}

/// Whether `text` is `b` with white space around it, between two marks.
pub open spec fn framed(
    rs: Seq<Seq<Elem>>,
    ws: int,
    l: char,
    a: Seq<u32>,
    b: Seq<u32>,
    c: Seq<u32>,
    r: char,
    text: Seq<u32>,
) -> bool {
    in_language(rs, ws, a) && in_language(rs, ws, c) && text == seq![l as u32] + a + b + c + seq![r as u32]
}

/// Whether a schema is that of an object with these properties.
pub open spec fn describes_object(schema: Json, o: Seq<(String, Json)>) -> bool {
    &&& text_at(schema, "$ref"@) is None
    &&& member(schema, "const"@) is None
    &&& list_at(schema, "enum"@) is None
    &&& !(member(schema, "anyOf"@) matches Some(Json::List(_)))
    &&& !(member(schema, "oneOf"@) matches Some(Json::List(_)))
    &&& text_at(schema, "type"@) == Some("object"@)
    &&& member(schema, "properties"@) matches Some(Json::Object(p)) && p@ == o
    &&& o.len() > 0
}

/// Whether a name stands anywhere in a schema's list of required ones.
pub open spec fn must_have(schema: Json, key: Seq<char>) -> bool {
    member(schema, "required"@) matches Some(Json::List(a)) && exists|i: int|
        0 <= i < a@.len() && (#[trigger] a@[i] matches Json::Text(t) && t@ == key)
}

proof fn lemma_must_have(schema: Json, key: Seq<char>)
    ensures
        must_have(schema, key) <==> is_required(schema, key),
{
    if let Some(Json::List(a)) = member(schema, "required"@) {
        if must_have(schema, key) {
            let i = choose|i: int| 0 <= i < a@.len() && (#[trigger] a@[i] matches Json::Text(t) && t@ == key);
            assert(is_text(a@[i], key));
            assert(lists_text(a@, key));
        }
        if lists_text(a@, key) {
            let i = choose|i: int| 0 <= i < a@.len() && is_text(#[trigger] a@[i], key);
            assert(a@[i] matches Json::Text(t) && t@ == key);
        }
    }
}

/// The symbol of property `k`.
pub open spec fn symbol_at(schema: Json, o: Seq<(String, Json)>, k: int) -> Seq<char> {
    let depth = def_names(schema).len();
    let start = Sketch { rules: seq![], n: 0 };
    node(schema, depth, members(schema, depth, start, schema, o, k as nat).0, o[k].1).1
}

/// The rule of property `k`'s value.
pub open spec fn value_rule(schema: Json, o: Seq<(String, Json)>, k: int) -> int {
    name_index(names_of(all_rules(schema)), symbol_at(schema, o, k))
}

/// The rule of white space.
pub open spec fn white_rule(schema: Json) -> int {
    name_index(names_of(all_rules(schema)), "ws"@)
}

/// The keys of some properties, with the rules of their values.
pub open spec fn named_slots(schema: Json, o: Seq<(String, Json)>, ks: Seq<int>) -> Seq<Slot> {
    Seq::new(ks.len(), |i: int| (o[ks[i]].0@, value_rule(schema, o, ks[i])))
}

/// Those of the first `n` properties that are required, or that are not.
spec fn sorted(schema: Json, o: Seq<(String, Json)>, n: nat, want: bool) -> Seq<int>
    decreases n,
{
    if n == 0 {
        seq![]
    } else {
        let rest = sorted(schema, o, (n - 1) as nat, want);
        if is_required(schema, o[n - 1].0@) == want {
            rest.push(n - 1)
        } else {
            rest
        }
    }
}

proof fn lemma_sorted(schema: Json, o: Seq<(String, Json)>, n: nat, want: bool)
    requires
        n <= o.len(),
    ensures
        ({
            let ks = sorted(schema, o, n, want);
            let v = picked(schema, def_names(schema).len(), (Sketch { rules: seq![], n: 0 }), schema, o, n, want);
            &&& rising(ks)
            &&& within(ks, n as int)
            &&& forall|i: int| 0 <= i < ks.len() ==> is_required(schema, o[#[trigger] ks[i]].0@) == want
            &&& forall|k: int| 0 <= k < n && is_required(schema, o[k].0@) == want ==> #[trigger] ks.contains(k)
            &&& v.len() == ks.len()
            &&& forall|i: int| 0 <= i < ks.len() ==> #[trigger] v[i] == (o[ks[i]].0@, symbol_at(schema, o, ks[i]))
        }),
    decreases n,
{
    if n > 0 {
        let m = (n - 1) as nat;
        lemma_sorted(schema, o, m, want);
        let rest = sorted(schema, o, m, want);
        let ks = sorted(schema, o, n, want);
        assert forall|k: int| 0 <= k < n && is_required(schema, o[k].0@) == want implies #[trigger] ks.contains(k) by {
            if k < m {
                assert(rest.contains(k));
                let i = choose|i: int| 0 <= i < rest.len() && rest[i] == k;
                assert(ks[i] == k);
            } else {
                assert(ks[ks.len() - 1] == k);
            }
        }
    }
}

/// Whether an object with just these properties, in this order, is one that a schema's grammar
/// can be asked to read: every property once at most, and every required one.
pub open spec fn complete(schema: Json, o: Seq<(String, Json)>, ks: Seq<int>) -> bool {
    &&& within(ks, o.len() as int)
    &&& ks.no_duplicates()
    &&& forall|k: int| 0 <= k < o.len() && must_have(schema, #[trigger] o[k].0@) ==> ks.contains(k)
}

/// An object schema becomes a rule of its members.
proof fn lemma_object_node(schema: Json, o: Seq<(String, Json)>)
    requires
        describes_object(schema, o),
    ensures
        ({
            let (d, req, opt) = members(
                schema,
                def_names(schema).len(),
                (Sketch { rules: seq![], n: 0 }),
                schema,
                o,
                o.len(),
            );
            sketch_of(schema) == fresh(d, object_body(req, opt))
        }),
{
    lemma_basic_names();
    let p = prelude();
    assert(p[1].0 == "string"@ && p[2].0 == "integer"@ && p[3].0 == "number"@ && p[4].0 == "boolean"@);
    assert(p[5].0 == "null"@ && p[7].0 == "object"@ && p[8].0 == "array"@);
    assert(p[1].0 != p[7].0 && p[2].0 != p[7].0 && p[3].0 != p[7].0 && p[4].0 != p[7].0 && p[5].0 != p[7].0);
    assert(p[7].0 != p[8].0);
}

/// What the grammar of an object schema is.
proof fn lemma_object_grammar(schema: Json, f: spec_fn(Seq<char>) -> nat, o: Seq<(String, Json)>)
    requires
        ranked(schema, f),
        schema_text(schema).len() <= usize::MAX,
        describes_object(schema, o),
    ensures
        ({
            let depth = def_names(schema).len();
            let start = Sketch { rules: seq![], n: 0 };
            let a = picked(schema, depth, start, schema, o, o.len(), true);
            let b = picked(schema, depth, start, schema, o, o.len(), false);
            let all = names_of(all_rules(schema));
            grammar_of(schema_text(schema)) matches Ok((rs, root)) && (rs.len() <= usize::MAX ==> {
                &&& as_alts(rs, all, root, one(cons(name(sketch_of(schema).1), nil())))
                &&& as_alts(rs, all, name_index(all, sketch_of(schema).1), one(enclosed('{', object_items(a, b), '}')))
            })
        }),
{
    let (rk, rank) = lemma_schema_rules(schema, f);
    let rules = all_rules(schema);
    let all = names_of(rules);
    let (c, sym) = sketch_of(schema);
    let depth = def_names(schema).len();
    let start = Sketch { rules: seq![], n: 0 };
    let (d, req, opt) = members(schema, depth, start, schema, o, o.len());
    let body = object_body(req, opt);
    lemma_object_node(schema, o);
    let at = lemma_put_there(d.rules, sym, body);
    assert(c.rules[at] == (sym, body));
    assert(rules[10 + at] == (sym, body));
    crate::filter::orders::lemma_own_index(all, 10 + at);
    assert(all[10 + at] == sym);
    let ns = seq![sym];
    assert(known(sym, all));
    assert(crate::filter::json_schema::joined(ns, " | "@) == sym);
    lemma_choice_text(ns, all);
    assert(choice(ns) =~= one(cons(name(sym), nil())));
    written_rules_mean_what_they_say(rules, rank, 9, 9, choice(ns), true);
    lemma_object_rule(schema, f, o, rk, at);
    let a = picked(schema, depth, start, schema, o, o.len(), true);
    let b = picked(schema, depth, start, schema, o, o.len(), false);
    assert(req == pairs(a) && opt == pairs(b));
    lemma_object_form((sym, body), a, b, all, rank);
    written_rules_mean_what_they_say(rules, rank, 9, 10 + at, one(enclosed('{', object_items(a, b), '}')), true);
}

proof fn lemma_object_rule(
    schema: Json,
    f: spec_fn(Seq<char>) -> nat,
    o: Seq<(String, Json)>,
    rk: Map<Seq<char>, nat>,
    at: int,
)
    requires
        ranked(schema, f),
        describes_object(schema, o),
        sketched(sketch_of(schema).0, rk, f),
        sketch_of(schema).0.rules.len() < usize::MAX,
        forall|x: Seq<char>|
            #[trigger] meant(x, sketch_of(schema).0.rules) ==> known(x, names_of(all_rules(schema))),
    ensures
        ({
            let depth = def_names(schema).len();
            let start = Sketch { rules: seq![], n: 0 };
            let a = picked(schema, depth, start, schema, o, o.len(), true);
            let b = picked(schema, depth, start, schema, o, o.len(), false);
            let (d, req, opt) = members(schema, depth, start, schema, o, o.len());
            let all = names_of(all_rules(schema));
            &&& req == pairs(a)
            &&& opt == pairs(b)
            &&& a.len() + b.len() == o.len()
            &&& symbols_known(a, all)
            &&& symbols_known(b, all)
        }),
{
    let depth = def_names(schema).len();
    let start = Sketch { rules: seq![], n: 0 };
    let none = Map::<Seq<char>, nat>::empty();
    let all = names_of(all_rules(schema));
    let (c, sym) = sketch_of(schema);
    let (d, req, opt) = members(schema, depth, start, schema, o, o.len());
    let body = object_body(req, opt);
    lemma_object_node(schema, o);
    crate::filter::schemas::lemma_put_rows(d.rules, sym, body);
    assert(sketched(start, none, f));
    crate::filter::json_schema::lemma_pending_bound(def_names(schema), start.rules, depth);
    let (rk1, a, b) = lemma_members_formed(schema, f, depth, start, none, schema, o, o.len());
    assert forall|x: Seq<char>| #[trigger] meant(x, d.rules) implies known(x, all) by {
        if crate::filter::json_schema::named_in(d.rules, x) {
            crate::filter::json_schema::lemma_put_names(d.rules, sym, body, x);
        }
        assert(meant(x, c.rules));
    }
    assert forall|i: int| 0 <= i < a.len() implies known((#[trigger] a[i]).1, all) by {
        assert(meant(a[i].1, d.rules));
    }
    assert forall|i: int| 0 <= i < b.len() implies known((#[trigger] b[i]).1, all) by {
        assert(meant(b[i].1, d.rules));
    }
}

/// What the root of an object schema's grammar reads.
proof fn lemma_root_mean(
    schema: Json,
    f: spec_fn(Seq<char>) -> nat,
    o: Seq<(String, Json)>,
    loose: bool,
    text: Seq<u32>,
)
    requires
        ranked(schema, f),
        schema_text(schema).len() <= usize::MAX,
        describes_object(schema, o),
    ensures
        ({
            let depth = def_names(schema).len();
            let start = Sketch { rules: seq![], n: 0 };
            let a = picked(schema, depth, start, schema, o, o.len(), true);
            let b = picked(schema, depth, start, schema, o, o.len(), false);
            let all = names_of(all_rules(schema));
            grammar_of(schema_text(schema)) matches Ok((rs, root)) && (rs.len() <= usize::MAX ==> (in_language(
                rs,
                root,
                text,
            ) <==> items_mean(rs, all, enclosed('{', object_items(a, b), '}'), loose, text)))
        }),
{
    lemma_object_grammar(schema, f, o);
    let (rs, root) = grammar_of(schema_text(schema))->Ok_0;
    if rs.len() <= usize::MAX {
        let depth = def_names(schema).len();
        let start = Sketch { rules: seq![], n: 0 };
        let a = picked(schema, depth, start, schema, o, o.len(), true);
        let b = picked(schema, depth, start, schema, o, o.len(), false);
        let all = names_of(all_rules(schema));
        let sym = sketch_of(schema).1;
        let id = name_index(all, sym);
        let call = cons(name(sym), nil());
        let body = enclosed('{', object_items(a, b), '}');
        lemma_one_alt(rs, all, call, true, text);
        lemma_one_alt(rs, all, call, false, text);
        lemma_one_alt(rs, all, body, true, text);
        lemma_one_alt(rs, all, body, false, text);
        lemma_single(rs, all, name(sym), true, text);
        lemma_single(rs, all, name(sym), false, text);
        lemma_leaf(rs, all, seq![], sym, true, text);
        lemma_leaf(rs, all, seq![], sym, false, text);
        assert(in_language(rs, root, text) <==> in_language(rs, id, text));
        lemma_body_mean(rs, all, a, b, true, false, text);
        lemma_body_mean(rs, all, a, b, true, loose, text);
        lemma_sorted(schema, o, o.len(), true);
        lemma_sorted(schema, o, o.len(), false);
    }
}

pub proof fn lemma_one_alt(rs: Seq<Seq<Elem>>, all: Seq<Seq<char>>, v: Seq<Item>, loose: bool, text: Seq<u32>)
    ensures
        alts_mean(rs, all, one(v), loose, text) <==> items_mean(rs, all, v, loose, text),
{
    let alts = one(v);
    if items_mean(rs, all, v, loose, text) {
        assert(items_mean(rs, all, alts[0], loose, text));
    }
    if alts_mean(rs, all, alts, loose, text) {
        let j = choose|j: int| 0 <= j < alts.len() && items_mean(rs, all, #[trigger] alts[j], loose, text);
        assert(alts[j] == v);
    }
}

/// An object's items hold no class: how classes are read does not matter.
proof fn lemma_body_mean(
    rs: Seq<Seq<Elem>>,
    all: Seq<Seq<char>>,
    req: Seq<(Seq<char>, Seq<char>)>,
    opt: Seq<(Seq<char>, Seq<char>)>,
    one_way: bool,
    other_way: bool,
    text: Seq<u32>,
)
    requires
        req.len() + opt.len() > 0,
    ensures
        items_mean(rs, all, enclosed('{', object_items(req, opt), '}'), one_way, text) <==> items_mean(
            rs,
            all,
            enclosed('{', object_items(req, opt), '}'),
            other_way,
            text,
        ),
{
    let inner = object_items(req, opt);
    let ws = name_index(all, "ws"@);
    lemma_enclosed_mean(rs, all, '{', inner, '}', one_way, text);
    lemma_enclosed_mean(rs, all, '{', inner, '}', other_way, text);
    assert forall|b: Seq<u32>| #[trigger] items_mean(rs, all, inner, one_way, b) <==> items_mean(
        rs,
        all,
        inner,
        other_way,
        b,
    ) by {
        lemma_inner_mean(rs, all, req, opt, one_way, b);
        lemma_inner_mean(rs, all, req, opt, other_way, b);
    }
}

/// Every text in the language of an object schema's grammar is an object of its properties, each
/// at most once, and has, for each property whose name stands anywhere in the schema's list of
/// required ones, a member of that name.
pub proof fn objects_have_their_members(schema: Json, f: spec_fn(Seq<char>) -> nat, o: Seq<(String, Json)>, text: Seq<u32>)
    requires
        ranked(schema, f),
        schema_text(schema).len() <= usize::MAX,
        describes_object(schema, o),
    ensures
        grammar_of(schema_text(schema)) matches Ok((rs, root)) && (rs.len() <= usize::MAX && in_language(rs, root, text)
            ==> exists|ks: Seq<int>| #[trigger]
            complete(schema, o, ks) && object_text(rs, white_rule(schema), named_slots(schema, o, ks), text)),
{
    lemma_root_mean(schema, f, o, true, text);
    let (rs, root) = grammar_of(schema_text(schema))->Ok_0;
    if rs.len() <= usize::MAX && in_language(rs, root, text) {
        let depth = def_names(schema).len();
        let start = Sketch { rules: seq![], n: 0 };
        let a = picked(schema, depth, start, schema, o, o.len(), true);
        let b = picked(schema, depth, start, schema, o, o.len(), false);
        let all = names_of(all_rules(schema));
        let ws = white_rule(schema);
        lemma_sorted(schema, o, o.len(), true);
        lemma_sorted(schema, o, o.len(), false);
        let ra = sorted(schema, o, o.len(), true);
        let rb = sorted(schema, o, o.len(), false);
        lemma_enclosed_mean(rs, all, '{', object_items(a, b), '}', true, text);
        let (x, y, z) = choose|x: Seq<u32>, y: Seq<u32>, z: Seq<u32>| #[trigger]
            framed(rs, ws, '{', x, y, z, '}', text) && items_mean(rs, all, object_items(a, b), true, y);
        lemma_some_property(schema, o);
        lemma_inner_mean(rs, all, a, b, true, y);
        let js = choose|js: Seq<int>| #[trigger] picks(rs, ws, slots_of(all, a), slots_of(all, b), js, y);
        let kb = Seq::new(js.len(), |i: int| rb[js[i]]);
        let ks = ra + kb;
        assert(named_slots(schema, o, ks) =~= slots_of(all, a) + at_places(slots_of(all, b), js)) by {
            assert forall|i: int| 0 <= i < js.len() implies slots_of(all, b)[#[trigger] js[i]] == (
                o[kb[i]].0@,
                value_rule(schema, o, kb[i]),
            ) by {
                assert(0 <= js[i] < rb.len());
                assert(b[js[i]] == (o[rb[js[i]]].0@, symbol_at(schema, o, rb[js[i]])));
            }
            assert forall|i: int| 0 <= i < ra.len() implies slots_of(all, a)[i] == (
                o[#[trigger] ra[i]].0@,
                value_rule(schema, o, ra[i]),
            ) by {
                assert(a[i] == (o[ra[i]].0@, symbol_at(schema, o, ra[i])));
            }
        }
        lemma_complete(schema, o, ra, rb, js);
        assert(object_text(rs, ws, named_slots(schema, o, ks), text));
    }
}

proof fn lemma_some_property(schema: Json, o: Seq<(String, Json)>)
    requires
        o.len() > 0,
    ensures
        sorted(schema, o, o.len(), true).len() + sorted(schema, o, o.len(), false).len() > 0,
{
    lemma_sorted(schema, o, o.len(), true);
    lemma_sorted(schema, o, o.len(), false);
    let want = is_required(schema, o[0].0@);
    assert(sorted(schema, o, o.len(), want).contains(0));
}

proof fn lemma_complete(schema: Json, o: Seq<(String, Json)>, ra: Seq<int>, rb: Seq<int>, js: Seq<int>)
    requires
        ra == sorted(schema, o, o.len(), true),
        rb == sorted(schema, o, o.len(), false),
        rising(js),
        within(js, rb.len() as int),
    ensures
        complete(schema, o, ra + Seq::new(js.len(), |i: int| rb[js[i]])),
{
    lemma_sorted(schema, o, o.len(), true);
    lemma_sorted(schema, o, o.len(), false);
    let kb = Seq::new(js.len(), |i: int| rb[js[i]]);
    let ks = ra + kb;
    assert forall|i: int| 0 <= i < kb.len() implies 0 <= #[trigger] kb[i] < o.len() && !is_required(schema, o[kb[i]].0@) by {
        assert(0 <= js[i] < rb.len());
        assert(0 <= rb[js[i]] < o.len());
    }
    assert forall|i: int, j: int| 0 <= i < ks.len() && 0 <= j < ks.len() && i != j implies ks[i] != ks[j] by {
        let lo = if i < j {
            i
        } else {
            j
        };
        let hi = if i < j {
            j
        } else {
            i
        };
        if hi < ra.len() {
            assert(ra[lo] < ra[hi]);
        } else if lo < ra.len() {
            assert(is_required(schema, o[ra[lo]].0@));
            assert(!is_required(schema, o[kb[hi - ra.len()]].0@));
        } else {
            let p = lo - ra.len();
            let q = hi - ra.len();
            assert(0 <= js[p] < rb.len() && 0 <= js[q] < rb.len());
            assert(js[p] < js[q]);
            assert(rb[js[p]] < rb[js[q]]);
        }
    }
    assert forall|k: int| 0 <= k < o.len() && must_have(schema, #[trigger] o[k].0@) implies ks.contains(k) by {
        lemma_must_have(schema, o[k].0@);
        assert(ra.contains(k));
        let i = choose|i: int| 0 <= i < ra.len() && ra[i] == k;
        assert(ks[i] == k);
    }
    assert forall|i: int| 0 <= i < ks.len() implies 0 <= #[trigger] ks[i] < o.len() by {
        if i >= ra.len() {
            assert(ks[i] == kb[i - ra.len()]);
        }
    }
}

/// Two lists of numbers that go up and hold the same ones are the same.
proof fn lemma_same_rising(a: Seq<int>, b: Seq<int>)
    requires
        rising(a),
        rising(b),
        forall|x: int| #[trigger] a.contains(x) <==> b.contains(x),
    ensures
        a == b,
    decreases a.len(),
{
    if a.len() == 0 {
        if b.len() > 0 {
            assert(b.contains(b[0]));
            assert(a.contains(b[0]));
        }
        assert(a =~= b);
    } else {
        assert(a.contains(a[0]));
        let x = a.last();
        assert(a.contains(x)) by {
            assert(a[a.len() - 1] == x);
        }
        let i = choose|i: int| 0 <= i < b.len() && b[i] == x;
        let y = b.last();
        assert(b.contains(y)) by {
            assert(b[b.len() - 1] == y);
        }
        assert(a.contains(y));
        let j = choose|j: int| 0 <= j < a.len() && a[j] == y;
        if i < b.len() - 1 {
            assert(b[i] < b[b.len() - 1]);
        }
        if j < a.len() - 1 {
            assert(a[j] < a[a.len() - 1]);
        }
        assert(x == y);
        let a1 = a.drop_last();
        let b1 = b.drop_last();
        assert forall|z: int| #[trigger] a1.contains(z) <==> b1.contains(z) by {
            if a1.contains(z) {
                let k = choose|k: int| 0 <= k < a1.len() && a1[k] == z;
                assert(a[k] == z && a[k] < a[a.len() - 1]);
                assert(a.contains(z));
                let m = choose|m: int| 0 <= m < b.len() && b[m] == z;
                assert(b1[m] == z);
            }
            if b1.contains(z) {
                let k = choose|k: int| 0 <= k < b1.len() && b1[k] == z;
                assert(b[k] == z && b[k] < b[b.len() - 1]);
                assert(b.contains(z));
                assert(a.contains(z));
                let m = choose|m: int| 0 <= m < a.len() && a[m] == z;
                assert(a1[m] == z);
            }
        }
        lemma_same_rising(a1, b1);
        assert(a =~= a1.push(x));
        assert(b =~= b1.push(y));
    }
}

/// Whether properties stand in the order that a schema's grammar asks for: the required ones as
/// they are listed, all of them, and then some of the others as they are listed. Without
/// required ones, the first listed property comes before any other.
pub open spec fn in_order(schema: Json, o: Seq<(String, Json)>, first: Seq<int>, then: Seq<int>) -> bool {
    &&& rising(first) && within(first, o.len() as int)
    &&& rising(then) && within(then, o.len() as int)
    &&& forall|k: int| 0 <= k < o.len() ==> (#[trigger] first.contains(k) <==> must_have(schema, o[k].0@))
    &&& forall|i: int| 0 <= i < then.len() ==> !must_have(schema, o[#[trigger] then[i]].0@)
    &&& first.len() == 0 && then.len() > 0 ==> then[0] == 0
}

/// An object with all its required members, and some of the others, in the order of the schema,
/// is in the language of the schema's grammar.
pub proof fn complete_objects_are_read(
    schema: Json,
    f: spec_fn(Seq<char>) -> nat,
    o: Seq<(String, Json)>,
    first: Seq<int>,
    then: Seq<int>,
    text: Seq<u32>,
)
    requires
        ranked(schema, f),
        schema_text(schema).len() <= usize::MAX,
        describes_object(schema, o),
        in_order(schema, o, first, then),
    ensures
        grammar_of(schema_text(schema)) matches Ok((rs, root)) && (rs.len() <= usize::MAX && object_text(
            rs,
            white_rule(schema),
            named_slots(schema, o, first + then),
            text,
        ) ==> in_language(rs, root, text)),
{
    lemma_root_mean(schema, f, o, true, text);
    let (rs, root) = grammar_of(schema_text(schema))->Ok_0;
    let ws = white_rule(schema);
    let ms = named_slots(schema, o, first + then);
    if rs.len() <= usize::MAX && object_text(rs, ws, ms, text) {
        let depth = def_names(schema).len();
        let start = Sketch { rules: seq![], n: 0 };
        let a = picked(schema, depth, start, schema, o, o.len(), true);
        let b = picked(schema, depth, start, schema, o, o.len(), false);
        let all = names_of(all_rules(schema));
        lemma_sorted(schema, o, o.len(), true);
        lemma_sorted(schema, o, o.len(), false);
        lemma_some_property(schema, o);
        let ra = sorted(schema, o, o.len(), true);
        let rb = sorted(schema, o, o.len(), false);
        assert forall|k: int| #[trigger] first.contains(k) <==> ra.contains(k) by {
            if first.contains(k) {
                let i = choose|i: int| 0 <= i < first.len() && first[i] == k;
                assert(0 <= first[i] < o.len());
                lemma_must_have(schema, o[k].0@);
            }
            if ra.contains(k) {
                let i = choose|i: int| 0 <= i < ra.len() && ra[i] == k;
                assert(0 <= ra[i] < o.len());
                assert(is_required(schema, o[ra[i]].0@));
                lemma_must_have(schema, o[k].0@);
                assert(first.contains(k));
            }
        }
        lemma_same_rising(first, ra);
        assert forall|i: int| 0 <= i < then.len() implies rb.contains(#[trigger] then[i]) by {
            lemma_must_have(schema, o[then[i]].0@);
        }
        let js = Seq::new(then.len(), |i: int| choose|j: int| 0 <= j < rb.len() && rb[j] == then[i]);
        assert forall|i: int| 0 <= i < js.len() implies 0 <= #[trigger] js[i] < rb.len() && rb[js[i]] == then[i] by {
            assert(rb.contains(then[i]));
        }
        assert forall|i: int, j: int| 0 <= i < j < js.len() implies js[i] < js[j] by {
            assert(then[i] < then[j]);
            assert(rb[js[i]] == then[i] && rb[js[j]] == then[j]);
            if js[j] < js[i] {
                assert(rb[js[j]] < rb[js[i]]);
            }
        }
        let (x, y, z) = choose|x: Seq<u32>, y: Seq<u32>, z: Seq<u32>|
            #![trigger in_language(rs, ws, x), members_text(rs, ws, ms, y), in_language(rs, ws, z)]
            in_language(rs, ws, x) && members_text(rs, ws, ms, y) && in_language(rs, ws, z) && text == seq!['{' as u32] + x
                + y + z + seq!['}' as u32];
        assert(ms =~= slots_of(all, a) + at_places(slots_of(all, b), js)) by {
            assert forall|i: int| 0 <= i < js.len() implies slots_of(all, b)[#[trigger] js[i]] == (
                o[then[i]].0@,
                value_rule(schema, o, then[i]),
            ) by {
                assert(b[js[i]] == (o[rb[js[i]]].0@, symbol_at(schema, o, rb[js[i]])));
            }
            assert forall|i: int| 0 <= i < ra.len() implies slots_of(all, a)[i] == (
                o[#[trigger] ra[i]].0@,
                value_rule(schema, o, ra[i]),
            ) by {
                assert(a[i] == (o[ra[i]].0@, symbol_at(schema, o, ra[i])));
            }
        }
        if first.len() == 0 && then.len() > 0 {
            lemma_first_optional(schema, o);
            assert(rb[js[0]] == 0 && rb[0] == 0);
            if js[0] > 0 {
                assert(rb[0] < rb[js[0]]);
            }
        }
        assert(picks(rs, ws, slots_of(all, a), slots_of(all, b), js, y));
        lemma_inner_mean(rs, all, a, b, true, y);
        assert(framed(rs, ws, '{', x, y, z, '}', text));
        lemma_enclosed_mean(rs, all, '{', object_items(a, b), '}', true, text);
    }
}

/// Without required properties the first one is the first optional one.
proof fn lemma_first_optional(schema: Json, o: Seq<(String, Json)>)
    requires
        o.len() > 0,
        sorted(schema, o, o.len(), true).len() == 0,
    ensures
        sorted(schema, o, o.len(), false).len() > 0,
        sorted(schema, o, o.len(), false)[0] == 0,
{
    lemma_sorted(schema, o, o.len(), true);
    lemma_sorted(schema, o, o.len(), false);
    let ra = sorted(schema, o, o.len(), true);
    let rb = sorted(schema, o, o.len(), false);
    if is_required(schema, o[0].0@) {
        assert(ra.contains(0));
    }
    assert(rb.contains(0));
    let i = choose|i: int| 0 <= i < rb.len() && rb[i] == 0;
    assert(0 <= rb[0]);
    if i > 0 {
        assert(rb[0] < rb[i]);
    }
}

/// The value of a property of a basic type is read by the rule of that type.
pub proof fn values_have_the_rules_of_their_types(schema: Json, o: Seq<(String, Json)>, k: int, t: Seq<char>)
    requires
        0 <= k < o.len(),
        t == "string"@ || t == "integer"@ || t == "number"@ || t == "boolean"@ || t == "null"@,
        text_at(o[k].1, "type"@) == Some(t),
        text_at(o[k].1, "$ref"@) is None,
        member(o[k].1, "const"@) is None,
        list_at(o[k].1, "enum"@) is None,
        !(member(o[k].1, "anyOf"@) matches Some(Json::List(_))),
        !(member(o[k].1, "oneOf"@) matches Some(Json::List(_))),
    ensures
        value_rule(schema, o, k) == name_index(names_of(all_rules(schema)), t),
{
}

} // verus!
