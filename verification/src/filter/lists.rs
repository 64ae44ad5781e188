//! What the grammars of a schema's list and of a schema's choice read.
use vstd::prelude::*;
use crate::filter::automaton::Elem;
use crate::filter::json_schema::{
    def_names, fresh, joined, lemma_pending_bound, lemma_put_names, list_body, named_in, node, nodes, prelude,
    schema_text, sketch_of, Sketch,
};
use crate::filter::language::in_language;
use crate::filter::meaning::{
    alts_mean, item_means, items_mean, piece_means, written_rules_mean_what_they_say,
};
use crate::filter::objects::{
    framed, lemma_cons_join, lemma_cons_split, lemma_enclosed_mean, lemma_leaf,
    lemma_marked_mean, lemma_maybe, lemma_one_alt, lemma_single, mark_text,
};
use crate::filter::orders::{lemma_own_index, names_of};
use crate::filter::prelude_shapes::{
    choice, cons, enclosed, group, known, lemma_choice_text, lemma_list_drawn, list_items, marked, name, nil, one,
};
use crate::filter::ranking::{lemma_basic_names, meant};
use crate::filter::repeats::may_repeat;
use crate::filter::schemas::{
    all_rules, lemma_node_formed, lemma_nodes_formed, lemma_put_rows, lemma_put_there, lemma_schema_rules, ranked,
    sketched,
};
use crate::filter::shapes::{Item, Piece};
use crate::filter::syntax::{grammar_of, name_char, name_index};
use crate::json::{list_at, member, text_at, Json};

verus! {

/// Whether `text` is a comma and an item; `ws` is the rule of white space.
pub open spec fn next_text(rs: Seq<Seq<Elem>>, ws: int, id: int, text: Seq<u32>) -> bool {
    exists|a: Seq<u32>, b: Seq<u32>|
        #![trigger mark_text(rs, ws, ',', a), in_language(rs, id, b)]
        mark_text(rs, ws, ',', a) && in_language(rs, id, b) && text == a + b
}

/// Whether `text` is `n` items with commas between them.
pub open spec fn items_text(rs: Seq<Seq<Elem>>, ws: int, id: int, n: nat, text: Seq<u32>) -> bool
    decreases n,
{
    if n == 0 {
        text.len() == 0
    } else if n == 1 {
        in_language(rs, id, text)
    } else {
        exists|k: int|
            0 <= k <= text.len() && items_text(rs, ws, id, (n - 1) as nat, text.take(k)) && #[trigger] next_text(
                rs,
                ws,
                id,
                text.skip(k),
            )
    }
}

/// Whether `text` is a list of items.
pub open spec fn list_text(rs: Seq<Seq<Elem>>, ws: int, id: int, text: Seq<u32>) -> bool {
    exists|n: nat, a: Seq<u32>, b: Seq<u32>, c: Seq<u32>| #[trigger]
        framed(rs, ws, '[', a, b, c, ']', text) && #[trigger] items_text(rs, ws, id, n, b)
}

proof fn lemma_items_push(rs: Seq<Seq<Elem>>, ws: int, id: int, n: nat, a: Seq<u32>, b: Seq<u32>)
    requires
        n > 0,
        items_text(rs, ws, id, n, a),
        next_text(rs, ws, id, b),
    ensures
        items_text(rs, ws, id, n + 1, a + b),
{
    let text = a + b;
    let k = a.len() as int;
    assert(text.take(k) =~= a);
    assert(text.skip(k) =~= b);
    assert(next_text(rs, ws, id, text.skip(k)));
}

/// Further items, one by one, behind a first one.
proof fn lemma_items_more(rs: Seq<Seq<Elem>>, ws: int, id: int, first: Seq<u32>, ts: Seq<Seq<u32>>)
    requires
        in_language(rs, id, first),
        forall|j: int| 0 <= j < ts.len() ==> next_text(rs, ws, id, #[trigger] ts[j]),
    ensures
        items_text(rs, ws, id, ts.len() + 1, first + ts.flatten()),
    decreases ts.len(),
{
    if ts.len() == 0 {
        assert(ts.flatten() =~= seq![]);
        assert(first + ts.flatten() =~= first);
    } else {
        let front = ts.drop_last();
        assert forall|j: int| 0 <= j < front.len() implies next_text(rs, ws, id, #[trigger] front[j]) by {
            assert(front[j] == ts[j]);
        }
        lemma_items_more(rs, ws, id, first, front);
        ts.lemma_flatten_and_flatten_alt_are_equivalent();
        front.lemma_flatten_and_flatten_alt_are_equivalent();
        assert(ts[ts.len() - 1] == ts.last());
        lemma_items_push(rs, ws, id, front.len() + 1, first + front.flatten(), ts.last());
        assert((first + front.flatten()) + ts.last() =~= first + ts.flatten());
    }
}

proof fn lemma_items_less(rs: Seq<Seq<Elem>>, ws: int, id: int, n: nat, text: Seq<u32>) -> (r: (Seq<u32>, Seq<Seq<u32>>))
    requires
        n > 0,
        items_text(rs, ws, id, n, text),
    ensures
        in_language(rs, id, r.0),
        forall|j: int| 0 <= j < r.1.len() ==> next_text(rs, ws, id, #[trigger] r.1[j]),
        text == r.0 + r.1.flatten(),
    decreases n,
{
    if n == 1 {
        let none: Seq<Seq<u32>> = seq![];
        assert(none.flatten() =~= seq![]);
        assert(text =~= text + none.flatten());
        (text, none)
    } else {
        let k = choose|k: int|
            0 <= k <= text.len() && items_text(rs, ws, id, (n - 1) as nat, text.take(k)) && #[trigger] next_text(
                rs,
                ws,
                id,
                text.skip(k),
            );
        let (first, front) = lemma_items_less(rs, ws, id, (n - 1) as nat, text.take(k));
        let ts = front.push(text.skip(k));
        assert(ts.drop_last() =~= front);
        ts.lemma_flatten_and_flatten_alt_are_equivalent();
        front.lemma_flatten_and_flatten_alt_are_equivalent();
        assert(text =~= first + ts.flatten()) by {
            assert(text =~= text.take(k) + text.skip(k));
        }
        (first, ts)
    }
}

/// What an item's name behind a comma reads.
proof fn lemma_next_mean(rs: Seq<Seq<Elem>>, all: Seq<Seq<char>>, x: Seq<char>, loose: bool, text: Seq<u32>)
    ensures
        items_mean(rs, all, marked(',', cons(name(x), nil())), loose, text) <==> next_text(
            rs,
            name_index(all, "ws"@),
            name_index(all, x),
            text,
        ),
{
    let ws = name_index(all, "ws"@);
    let id = name_index(all, x);
    let v = cons(name(x), nil());
    lemma_marked_mean(rs, all, ',', v, loose, text);
    if items_mean(rs, all, marked(',', v), loose, text) {
        let (a, b) = choose|a: Seq<u32>, b: Seq<u32>|
            #![trigger mark_text(rs, ws, ',', a), items_mean(rs, all, v, loose, b)]
            mark_text(rs, ws, ',', a) && items_mean(rs, all, v, loose, b) && text == a + b;
        lemma_single(rs, all, name(x), loose, b);
        lemma_leaf(rs, all, seq![], x, loose, b);
        assert(in_language(rs, id, b));
    }
    if next_text(rs, ws, id, text) {
        let (a, b) = choose|a: Seq<u32>, b: Seq<u32>|
            #![trigger mark_text(rs, ws, ',', a), in_language(rs, id, b)]
            mark_text(rs, ws, ',', a) && in_language(rs, id, b) && text == a + b;
        lemma_leaf(rs, all, seq![], x, loose, b);
        lemma_single(rs, all, name(x), loose, b);
        assert(items_mean(rs, all, v, loose, b));
    }
}

/// Any number of texts of one group.
proof fn lemma_any(rs: Seq<Seq<Elem>>, all: Seq<Seq<char>>, v: Seq<Item>, loose: bool, text: Seq<u32>)
    ensures
        item_means(rs, all, group(one(v), Some('*')), loose, text) <==> exists|ts: Seq<Seq<u32>>| #[trigger]
            ts.flatten() == text && forall|j: int| 0 <= j < ts.len() ==> items_mean(rs, all, v, loose, #[trigger] ts[j]),
{
    let i = group(one(v), Some('*'));
    let alts = one(v);
    assert(i.piece == Piece::Group(alts));
    assert forall|t: Seq<u32>| #[trigger] piece_means(rs, all, i.piece, loose, t) <==> items_mean(rs, all, v, loose, t) by {
        assert(piece_means(rs, all, i.piece, loose, t) == alts_mean(rs, all, alts, loose, t));
        lemma_one_alt(rs, all, v, loose, t);
    }
    if item_means(rs, all, i, loose, text) {
        let ts = choose|ts: Seq<Seq<u32>>| #[trigger]
            ts.flatten() == text && may_repeat('*', ts.len()) && forall|j: int|
                0 <= j < ts.len() ==> piece_means(rs, all, i.piece, loose, #[trigger] ts[j]);
        assert forall|j: int| 0 <= j < ts.len() implies items_mean(rs, all, v, loose, #[trigger] ts[j]) by {
            assert(piece_means(rs, all, i.piece, loose, ts[j]));
        }
        assert(ts.flatten() == text);
    }
    if exists|ts: Seq<Seq<u32>>| #[trigger]
        ts.flatten() == text && forall|j: int| 0 <= j < ts.len() ==> items_mean(rs, all, v, loose, #[trigger] ts[j]) {
        let ts = choose|ts: Seq<Seq<u32>>| #[trigger]
            ts.flatten() == text && forall|j: int| 0 <= j < ts.len() ==> items_mean(rs, all, v, loose, #[trigger] ts[j]);
        assert forall|j: int| 0 <= j < ts.len() implies piece_means(rs, all, i.piece, loose, #[trigger] ts[j]) by {}
        assert(ts.flatten() == text && may_repeat('*', ts.len()));
    }
}

/// What the items of a list read.
proof fn lemma_list_mean(rs: Seq<Seq<Elem>>, all: Seq<Seq<char>>, x: Seq<char>, loose: bool, text: Seq<u32>)
    ensures
        items_mean(rs, all, list_items(x), loose, text) <==> exists|n: nat| #[trigger]
            items_text(rs, name_index(all, "ws"@), name_index(all, x), n, text),
{
    let ws = name_index(all, "ws"@);
    let id = name_index(all, x);
    let next = marked(',', cons(name(x), nil()));
    let star = group(one(next), Some('*'));
    let y1 = cons(star, nil());
    let y = cons(name(x), y1);
    lemma_single(rs, all, group(one(y), Some('?')), loose, text);
    lemma_maybe(rs, all, y, loose, text);
    if items_mean(rs, all, list_items(x), loose, text) {
        if text.len() == 0 {
            assert(items_text(rs, ws, id, 0, text));
        } else {
            let (a, b) = lemma_cons_split(rs, all, name(x), y1, loose, text);
            lemma_leaf(rs, all, seq![], x, loose, a);
            lemma_single(rs, all, star, loose, b);
            lemma_any(rs, all, next, loose, b);
            let ts = choose|ts: Seq<Seq<u32>>| #[trigger]
                ts.flatten() == b && forall|j: int| 0 <= j < ts.len() ==> items_mean(rs, all, next, loose, #[trigger] ts[j]);
            assert forall|j: int| 0 <= j < ts.len() implies next_text(rs, ws, id, #[trigger] ts[j]) by {
                lemma_next_mean(rs, all, x, loose, ts[j]);
            }
            lemma_items_more(rs, ws, id, a, ts);
        }
    }
    if exists|n: nat| #[trigger] items_text(rs, ws, id, n, text) {
        let n = choose|n: nat| #[trigger] items_text(rs, ws, id, n, text);
        if n > 0 {
            let (a, ts) = lemma_items_less(rs, ws, id, n, text);
            assert forall|j: int| 0 <= j < ts.len() implies items_mean(rs, all, next, loose, #[trigger] ts[j]) by {
                lemma_next_mean(rs, all, x, loose, ts[j]);
            }
            lemma_any(rs, all, next, loose, ts.flatten());
            lemma_single(rs, all, star, loose, ts.flatten());
            lemma_leaf(rs, all, seq![], x, loose, a);
            lemma_cons_join(rs, all, name(x), y1, loose, a, ts.flatten());
        }
    }
}

/// Whether a schema is that of a list of these items.
pub open spec fn describes_list(schema: Json, item: Json) -> bool {
    &&& text_at(schema, "$ref"@) is None
    &&& member(schema, "const"@) is None
    &&& list_at(schema, "enum"@) is None
    &&& !(member(schema, "anyOf"@) matches Some(Json::List(_)))
    &&& !(member(schema, "oneOf"@) matches Some(Json::List(_)))
    &&& text_at(schema, "type"@) == Some("array"@)
    &&& member(schema, "items"@) == Some(item)
}

/// The rule of a list's items.
pub open spec fn item_rule(schema: Json, item: Json) -> int {
    name_index(
        names_of(all_rules(schema)),
        node(schema, def_names(schema).len(), (Sketch { rules: seq![], n: 0 }), item).1,
    )
}

/// A text is in the language of a list schema's grammar exactly where it is a list: brackets
/// around any number of items with commas between them, each of them read by the items' rule.
pub proof fn lists_hold_their_items(schema: Json, f: spec_fn(Seq<char>) -> nat, item: Json, text: Seq<u32>)
    requires
        ranked(schema, f),
        schema_text(schema).len() <= usize::MAX,
        describes_list(schema, item),
    ensures
        grammar_of(schema_text(schema)) matches Ok((rs, root)) && (rs.len() <= usize::MAX ==> (in_language(rs, root, text)
            <==> list_text(rs, name_index(names_of(all_rules(schema)), "ws"@), item_rule(schema, item), text))),
{
    let (rk, rank) = lemma_schema_rules(schema, f);
    let rules = all_rules(schema);
    let all = names_of(rules);
    let (c, sym) = sketch_of(schema);
    let depth = def_names(schema).len();
    let start = Sketch { rules: seq![], n: 0 };
    lemma_basic_names();
    let p = prelude();
    assert(p[1].0 == "string"@ && p[2].0 == "integer"@ && p[3].0 == "number"@ && p[4].0 == "boolean"@);
    assert(p[5].0 == "null"@ && p[8].0 == "array"@);
    assert(p[1].0 != p[8].0 && p[2].0 != p[8].0 && p[3].0 != p[8].0 && p[4].0 != p[8].0 && p[5].0 != p[8].0);
    let (d, x) = node(schema, depth, start, item);
    let body = list_body(x);
    assert((c, sym) == fresh(d, body));
    let at = lemma_put_there(d.rules, sym, body);
    assert(rules[10 + at] == (sym, body));
    lemma_own_index(all, 10 + at);
    assert(all[10 + at] == sym);
    let none = Map::<Seq<char>, nat>::empty();
    lemma_put_rows(d.rules, sym, body);
    assert(sketched(start, none, f));
    lemma_pending_bound(def_names(schema), start.rules, depth);
    let rk1 = lemma_node_formed(schema, f, depth, start, none, item);
    if named_in(d.rules, x) {
        lemma_put_names(d.rules, sym, body, x);
    }
    assert(meant(x, c.rules));
    assert(known(x, all));
    lemma_list_drawn((sym, body), x, all, rank);
    written_rules_mean_what_they_say(rules, rank, 9, 10 + at, one(enclosed('[', list_items(x), ']')), true);
    lemma_called(schema, rank);
    let (rs, root) = grammar_of(schema_text(schema))->Ok_0;
    if rs.len() <= usize::MAX {
        let ws = name_index(all, "ws"@);
        let id = name_index(all, x);
        let v = enclosed('[', list_items(x), ']');
        lemma_one_alt(rs, all, v, true, text);
        lemma_one_alt(rs, all, v, false, text);
        lemma_enclosed_mean(rs, all, '[', list_items(x), ']', true, text);
        lemma_enclosed_mean(rs, all, '[', list_items(x), ']', false, text);
        assert(in_language(rs, root, text) <==> in_language(rs, name_index(all, sym), text));
        if in_language(rs, root, text) {
            let (a, b, z) = choose|a: Seq<u32>, b: Seq<u32>, z: Seq<u32>| #[trigger]
                framed(rs, ws, '[', a, b, z, ']', text) && items_mean(rs, all, list_items(x), true, b);
            lemma_list_mean(rs, all, x, true, b);
            let n = choose|n: nat| #[trigger] items_text(rs, ws, id, n, b);
            assert(framed(rs, ws, '[', a, b, z, ']', text) && items_text(rs, ws, id, n, b));
        }
        if list_text(rs, ws, id, text) {
            let (n, a, b, z) = choose|n: nat, a: Seq<u32>, b: Seq<u32>, z: Seq<u32>| #[trigger]
                framed(rs, ws, '[', a, b, z, ']', text) && #[trigger] items_text(rs, ws, id, n, b);
            lemma_list_mean(rs, all, x, false, b);
            assert(framed(rs, ws, '[', a, b, z, ']', text) && items_mean(rs, all, list_items(x), false, b));
        }
    }
}

/// The root reads what the schema's own rule reads.
proof fn lemma_called(schema: Json, rank: spec_fn(Seq<char>) -> nat)
    requires
        schema_text(schema) == crate::filter::json_schema::rules_text(all_rules(schema)),
        forall|i: int|
            0 <= i < all_rules(schema).len() ==> crate::filter::reading::clean(#[trigger] all_rules(schema)[i]),
        crate::filter::orders::own_names(names_of(all_rules(schema))),
        forall|i: int|
            0 <= i < all_rules(schema).len() ==> crate::filter::orders::drawn(
                #[trigger] all_rules(schema)[i],
                names_of(all_rules(schema)),
                rank,
            ),
        all_rules(schema)[9] == ("root"@, sketch_of(schema).1),
        "root"@ == seq!['r', 'o', 'o', 't'],
        known(sketch_of(schema).1, names_of(all_rules(schema))),
    ensures
        grammar_of(schema_text(schema)) matches Ok((rs, root)) && (rs.len() <= usize::MAX ==> forall|text: Seq<u32>| #[trigger]
            in_language(rs, root, text) <==> in_language(
                rs,
                name_index(names_of(all_rules(schema)), sketch_of(schema).1),
                text,
            )),
{
    let rules = all_rules(schema);
    let all = names_of(rules);
    let sym = sketch_of(schema).1;
    let ns = seq![sym];
    assert(joined(ns, " | "@) == sym);
    lemma_basic_names();
    assert(rules.len() >= 10);
    lemma_choice_text(ns, all);
    assert(choice(ns) =~= one(cons(name(sym), nil())));
    written_rules_mean_what_they_say(rules, rank, 9, 9, choice(ns), true);
    let (rs, root) = grammar_of(schema_text(schema))->Ok_0;
    if rs.len() <= usize::MAX {
        let call = cons(name(sym), nil());
        assert forall|text: Seq<u32>| #[trigger]
            in_language(rs, root, text) <==> in_language(rs, name_index(all, sym), text) by {
            lemma_one_alt(rs, all, call, true, text);
            lemma_one_alt(rs, all, call, false, text);
            lemma_single(rs, all, name(sym), true, text);
            lemma_single(rs, all, name(sym), false, text);
            lemma_leaf(rs, all, seq![], sym, true, text);
            lemma_leaf(rs, all, seq![], sym, false, text);
        }
    }
}

/// Whether a schema is a choice from these, whether it says one of them or any.
pub open spec fn describes_choice(schema: Json, vs: Seq<Json>) -> bool {
    &&& text_at(schema, "$ref"@) is None
    &&& member(schema, "const"@) is None
    &&& list_at(schema, "enum"@) is None
    &&& (member(schema, "anyOf"@) matches Some(Json::List(a)) && a@ == vs) || (!(member(schema, "anyOf"@) matches Some(
        Json::List(_),
    )) && (member(schema, "oneOf"@) matches Some(Json::List(a)) && a@ == vs))
    &&& vs.len() > 0
}

/// The rule of option `j` of a choice.
pub open spec fn option_rule(schema: Json, vs: Seq<Json>, j: int) -> int {
    let start = Sketch { rules: seq![], n: 0 };
    let before = nodes(schema, def_names(schema).len(), start, vs, j as nat).0;
    name_index(names_of(all_rules(schema)), node(schema, def_names(schema).len(), before, vs[j]).1)
}

proof fn lemma_option_symbols(root: Json, depth: nat, c: Sketch, vs: Seq<Json>, n: nat)
    requires
        n <= vs.len(),
    ensures
        nodes(root, depth, c, vs, n).1.len() == n,
        forall|j: int|
            0 <= j < n ==> #[trigger] nodes(root, depth, c, vs, n).1[j] == node(
                root,
                depth,
                nodes(root, depth, c, vs, j as nat).0,
                vs[j],
            ).1,
    decreases n,
{
    if n > 0 {
        lemma_option_symbols(root, depth, c, vs, (n - 1) as nat);
    }
}

/// A text is in the language of a choice's grammar exactly where one of the options reads it.
pub proof fn choices_read_what_an_option_reads(schema: Json, f: spec_fn(Seq<char>) -> nat, vs: Seq<Json>, text: Seq<u32>)
    requires
        ranked(schema, f),
        schema_text(schema).len() <= usize::MAX,
        describes_choice(schema, vs),
    ensures
        grammar_of(schema_text(schema)) matches Ok((rs, root)) && (rs.len() <= usize::MAX ==> (in_language(rs, root, text)
            <==> exists|j: int| 0 <= j < vs.len() && in_language(rs, #[trigger] option_rule(schema, vs, j), text))),
{
    let (rk, rank) = lemma_schema_rules(schema, f);
    let rules = all_rules(schema);
    let all = names_of(rules);
    let (c, sym) = sketch_of(schema);
    let depth = def_names(schema).len();
    let start = Sketch { rules: seq![], n: 0 };
    let (d, alts) = nodes(schema, depth, start, vs, vs.len());
    let body = joined(alts, " | "@);
    assert((c, sym) == fresh(d, body));
    let at = lemma_put_there(d.rules, sym, body);
    lemma_basic_names();
    assert(rules[10 + at] == (sym, body));
    lemma_own_index(all, 10 + at);
    assert(all[10 + at] == sym);
    let none = Map::<Seq<char>, nat>::empty();
    lemma_put_rows(d.rules, sym, body);
    assert(sketched(start, none, f));
    lemma_pending_bound(def_names(schema), start.rules, depth);
    let rk1 = lemma_nodes_formed(schema, f, depth, start, none, vs, vs.len());
    lemma_option_symbols(schema, depth, start, vs, vs.len());
    assert forall|i: int| 0 <= i < alts.len() implies known(#[trigger] alts[i], all) by {
        assert(meant(alts[i], d.rules));
        if named_in(d.rules, alts[i]) {
            lemma_put_names(d.rules, sym, body, alts[i]);
        }
        assert(meant(alts[i], c.rules));
    }
    assert forall|i: int| 0 <= i < alts.len() implies (#[trigger] alts[i]).len() > 0 && name_index(all, alts[i]) >= 0 by {
        assert(known(alts[i], all));
    }
    assert forall|i: int, j: int| 0 <= i < alts.len() && 0 <= j < alts[i].len() implies name_char(#[trigger] alts[i][j]) by {
        assert(known(alts[i], all));
    }
    lemma_choice_text(alts, all);
    written_rules_mean_what_they_say(rules, rank, 9, 10 + at, choice(alts), true);
    lemma_called(schema, rank);
    let (rs, root) = grammar_of(schema_text(schema))->Ok_0;
    if rs.len() <= usize::MAX {
        assert(in_language(rs, root, text) <==> in_language(rs, name_index(all, sym), text));
        assert forall|j: int, loose: bool| 0 <= j < alts.len() implies (#[trigger] items_mean(
            rs,
            all,
            choice(alts)[j],
            loose,
            text,
        ) <==> in_language(rs, option_rule(schema, vs, j), text)) by {
            assert(choice(alts)[j] == cons(name(alts[j]), nil()));
            lemma_single(rs, all, name(alts[j]), loose, text);
            lemma_leaf(rs, all, seq![], alts[j], loose, text);
        }
        let ch = choice(alts);
        if in_language(rs, root, text) {
            assert(alts_mean(rs, all, ch, true, text));
            let j = choose|j: int| 0 <= j < ch.len() && items_mean(rs, all, #[trigger] ch[j], true, text);
            assert(in_language(rs, option_rule(schema, vs, j), text));
        }
        if exists|j: int| 0 <= j < vs.len() && in_language(rs, #[trigger] option_rule(schema, vs, j), text) {
            let j = choose|j: int| 0 <= j < vs.len() && in_language(rs, #[trigger] option_rule(schema, vs, j), text);
            assert(items_mean(rs, all, ch[j], false, text));
            assert(alts_mean(rs, all, ch, false, text));
        }
    }
}

} // verus!
