//! The grammar of a schema keeps the order, unless a definition leads to itself.
use vstd::prelude::*;
use crate::filter::automaton::sound_from;
use crate::filter::constants::{lemma_joined_first, lits_of};
use crate::filter::drafts::hidden;
use crate::filter::json_schema::{
    any_text, joined, list_body, lit_of, named_in, object_body, optional_pair, optional_pairs, pair_text, prelude, Row,
};
use crate::filter::orders::{drawn, drawn_as, drawn_rules_are_sound, names_of};
use crate::filter::prelude::preludes_are_well_formed;
use crate::filter::prelude_shapes::{
    basics, cons, enclosed, group, known, lemma_basics_known, lemma_choice_drawn, lemma_cons, lemma_enclosed_drawn, lemma_group_item,
    lemma_items_concat, lemma_list_drawn, lemma_lit_item, lemma_marked, lemma_nil, lemma_one, lemma_or, lemma_pair_items, lit,
    marked, nil, one, or, pair_items, preludes_are_drawn, values_on_top,
};
use crate::filter::reading::{clean, lemma_no_comment};
use crate::filter::shapes::{alts_ok, alts_text, items_ok, items_text, Item};
use crate::filter::syntax::{grammar_of, name_char, name_index};
use crate::json::json_string;

verus! {

/// The rank of the first rules: a value is above what it can be.
pub open spec fn basic_rank(n: Seq<char>) -> nat {
    if n == "value"@ {
        1
    } else {
        0
    }
}

/// The names of the first rules differ from each other, and from the root's.
pub proof fn lemma_basic_names()
    ensures
        prelude().len() == 9,
        forall|i: int, j: int| 0 <= i < j < 9 ==> (#[trigger] prelude()[i]).0 != (#[trigger] prelude()[j]).0,
        forall|i: int| 0 <= i < 9 ==> (#[trigger] prelude()[i]).0 != "root"@ && !hidden(prelude()[i].0),
        forall|i: int| 0 <= i < 9 ==> (#[trigger] prelude()[i]).0.len() >= 2 && !('0' <= prelude()[i].0[1] <= '9'),
        forall|i: int| 0 <= i < 9 ==> (#[trigger] prelude()[i]).0[0] != 'r',
        "root"@ == seq!['r', 'o', 'o', 't'],
        forall|i: int| 0 <= i < 9 ==> ((#[trigger] prelude()[i]).0 == "value"@) == (i == 6),
{
    reveal_strlit("ws");
    reveal_strlit("string");
    reveal_strlit("integer");
    reveal_strlit("number");
    reveal_strlit("boolean");
    reveal_strlit("null");
    reveal_strlit("value");
    reveal_strlit("object");
    reveal_strlit("array");
    reveal_strlit("root");
    assert("root"@ =~= seq!['r', 'o', 'o', 't']);
    let p = prelude();
    assert(p[0].0[0] == 'w' && p[1].0[0] == 's' && p[2].0[0] == 'i' && p[3].0[0] == 'n' && p[4].0[0] == 'b');
    assert(p[5].0[0] == 'n' && p[6].0[0] == 'v' && p[7].0[0] == 'o' && p[8].0[0] == 'a');
    assert(p[3].0.len() == 6 && p[5].0.len() == 4);
    assert forall|i: int| 0 <= i < 9 implies (#[trigger] p[i]).0.len() >= 2 && !('0' <= p[i].0[1] <= '9') by {
        assert(i == 0 || i == 1 || i == 2 || i == 3 || i == 4 || i == 5 || i == 6 || i == 7 || i == 8);
    }
}

pub proof fn lemma_index_there(all: Seq<Seq<char>>, k: int)
    requires
        0 <= k < all.len(),
    ensures
        name_index(all, all[k]) >= 0,
    decreases all.len(),
{
    if k < all.len() - 1 {
        assert(all.drop_last()[k] == all[k]);
        lemma_index_there(all.drop_last(), k);
    }
}

/// The names of the first rules are there where these rules stand first.
pub proof fn lemma_basics_first(rules: Seq<Row>)
    requires
        rules.len() >= 9,
        forall|i: int| 0 <= i < 9 ==> #[trigger] rules[i] == prelude()[i],
    ensures
        basics(names_of(rules)),
{
    let all = names_of(rules);
    assert forall|i: int| 0 <= i < 9 implies name_index(all, (#[trigger] prelude()[i]).0) >= 0 by {
        assert(all[i] == rules[i].0);
        lemma_index_there(all, i);
    }
}

/// A machine always comes to rest on the grammar of any JSON object.
pub proof fn any_object_is_sound()
    ensures
        grammar_of(any_text()) matches Ok((rs, root)) && (rs.len() <= usize::MAX ==> sound_from(rs, root)),
{
    reveal_strlit("object");
    preludes_are_well_formed();
    lemma_basic_names();
    let body = "object"@;
    let rules = prelude().push(("root"@, body));
    let all = names_of(rules);
    let rank = |n: Seq<char>| if n == "root"@ {
        2nat
    } else {
        basic_rank(n)
    };
    assert forall|i: int| 0 <= i < 9 implies #[trigger] rules[i] == prelude()[i] by {}
    lemma_basics_first(rules);
    assert forall|i: int| 0 <= i < body.len() implies #[trigger] body[i] != '#' && body[i] != '\n' by {}
    lemma_no_comment(body, 0, None);
    assert forall|i: int| 0 <= i < rules.len() implies clean(#[trigger] rules[i]) by {
        if i < 9 {
            assert(rules[i] == prelude()[i]);
        }
    }
    assert forall|i: int, j: int| 0 <= i < j < all.len() implies #[trigger] all[i] != #[trigger] all[j] by {
        assert(all[i] == prelude()[i].0);
        if j < 9 {
            assert(all[j] == prelude()[j].0);
        }
    }
    assert forall|i: int| 0 <= i < all.len() implies !hidden(#[trigger] all[i]) by {
        if i < 9 {
            assert(all[i] == prelude()[i].0);
        }
    }
    lemma_ranks_basic(rank);
    preludes_are_drawn(all, rank);
    let ns = seq![body];
    lemma_basics_known(all);
    assert(joined(ns, " | "@) == body);
    assert(prelude()[7].0 == body);
    assert forall|i: int, j: int| 0 <= i < ns.len() && 0 <= j < ns[i].len() implies name_char(
        #[trigger] ns[i][j],
    ) by {
        assert(known(body, all));
    }
    assert(body != "root"@);
    lemma_choice_drawn(("root"@, body), ns, all, rank);
    assert forall|i: int| 0 <= i < rules.len() implies drawn(#[trigger] rules[i], all, rank) by {
        if i < 9 {
            assert(rules[i] == prelude()[i]);
        }
    }
    drawn_rules_are_sound(rules, rank, 9);
}

/// A ranking that leaves the ranks of the first rules as they are keeps values on top.
pub proof fn lemma_ranks_basic(rank: spec_fn(Seq<char>) -> nat)
    requires
        forall|i: int| 0 <= i < 9 ==> rank((#[trigger] prelude()[i]).0) == basic_rank(prelude()[i].0),
    ensures
        values_on_top(rank),
{
    lemma_basic_names();
    let p = prelude();
    assert(rank(p[6].0) == 1);
    assert(rank(p[7].0) == 0 && rank(p[8].0) == 0 && rank(p[1].0) == 0);
    assert(rank(p[3].0) == 0 && rank(p[4].0) == 0 && rank(p[5].0) == 0);
}

/// What the rule of a schema node is: one of some texts, a list, an object of required and optional
/// pairs, or one of some symbols.
pub enum Form {
    Lits(Seq<Seq<char>>),
    List(Seq<char>),
    Obj(Seq<(Seq<char>, Seq<char>)>, Seq<(Seq<char>, Seq<char>)>),
    Names(Seq<Seq<char>>),
}

/// Pairs as they are written.
pub open spec fn pairs(v: Seq<(Seq<char>, Seq<char>)>) -> Seq<Seq<char>> {
    Seq::new(v.len(), |i: int| pair_text(v[i].0, v[i].1))
}

/// The body of a rule.
pub open spec fn form_body(f: Form) -> Seq<char> {
    match f {
        Form::Lits(ts) => joined(lits_of(ts), " | "@),
        Form::List(x) => list_body(x),
        Form::Obj(req, opt) => object_body(pairs(req), pairs(opt)),
        Form::Names(ns) => joined(ns, " | "@),
    }
}

/// Whether a symbol is the name of a rule: of one of the first, or of one of these.
pub open spec fn meant(x: Seq<char>, rules: Seq<Row>) -> bool {
    (exists|i: int| 0 <= i < 9 && (#[trigger] prelude()[i]).0 == x) || named_in(rules, x)
}

/// The rank of a rule.
pub open spec fn rank_in(rk: Map<Seq<char>, nat>, x: Seq<char>) -> nat {
    if rk.dom().contains(x) {
        rk[x]
    } else {
        basic_rank(x)
    }
}

/// Whether the symbols of a rule are names of rules, and those that it is one of have a lower rank.
pub open spec fn form_ok(f: Form, name: Seq<char>, rules: Seq<Row>, rk: Map<Seq<char>, nat>) -> bool {
    match f {
        Form::Lits(_) => true,
        Form::List(x) => meant(x, rules),
        Form::Obj(req, opt) => {
            &&& req.len() + opt.len() > 0
            &&& forall|i: int| 0 <= i < req.len() ==> meant((#[trigger] req[i]).1, rules)
            &&& forall|i: int| 0 <= i < opt.len() ==> meant((#[trigger] opt[i]).1, rules)
        },
        Form::Names(ns) => forall|i: int|
            0 <= i < ns.len() ==> meant(#[trigger] ns[i], rules) && rank_in(rk, ns[i]) < rank_in(rk, name),
    }
}

/// Whether a rule has such a form.
pub open spec fn formed(r: Row, rules: Seq<Row>, rk: Map<Seq<char>, nat>) -> bool {
    exists|f: Form| #[trigger] form_ok(f, r.0, rules, rk) && r.1 == form_body(f)
}

/// Alternates of one text each.
spec fn texts(ts: Seq<Seq<char>>) -> Seq<Seq<Item>> {
    Seq::new(ts.len(), |i: int| cons(lit(ts[i]), nil()))
}

proof fn lemma_texts(ts: Seq<Seq<char>>, all: Seq<Seq<char>>)
    requires
        ts.len() > 0,
    ensures
        seq![' '] + joined(lits_of(ts), " | "@) == alts_text(texts(ts)),
        alts_ok(texts(ts), all, false),
    decreases ts.len(),
{
    reveal_strlit(" | ");
    let t = ts[0];
    lemma_nil(all, false);
    lemma_lit_item(t, all, false);
    lemma_cons(lit(t), nil(), all, false);
    let x = cons(lit(t), nil());
    assert(items_text(x) =~= seq![' '] + lit_of(t));
    let ls = lits_of(ts);
    if ts.len() == 1 {
        assert(texts(ts) =~= one(x));
        lemma_one(x, all, false);
        assert(seq![' '] + joined(ls, " | "@) =~= alts_text(texts(ts)));
    } else {
        let rest = ts.drop_first();
        lemma_texts(rest, all);
        assert(texts(ts) =~= or(x, texts(rest)));
        lemma_or(x, texts(rest), all, false);
        lemma_joined_first(ls, " | "@);
        assert(ls.drop_first() =~= lits_of(rest));
        assert(seq![' '] + joined(ls, " | "@) =~= alts_text(texts(ts)));
    }
}

/// The items of a pair.
pub open spec fn pair_of(p: (Seq<char>, Seq<char>)) -> Seq<Item> {
    pair_items(lit(json_string(p.0)), p.1)
}

proof fn lemma_pair_of(p: (Seq<char>, Seq<char>), all: Seq<Seq<char>>)
    requires
        basics(all),
        known(p.1, all),
    ensures
        items_ok(pair_of(p), all, true),
        items_text(pair_of(p)) == seq![' '] + pair_text(p.0, p.1),
{
    reveal_strlit(" ws \":\" ws ");
    lemma_lit_item(json_string(p.0), all, true);
    lemma_pair_items(lit(json_string(p.0)), p.1, all);
    assert(items_text(pair_of(p)) =~= seq![' '] + pair_text(p.0, p.1));
}

/// The items of required pairs.
pub open spec fn required_items(v: Seq<(Seq<char>, Seq<char>)>) -> Seq<Item>
    decreases v.len(),
{
    if v.len() == 0 {
        nil()
    } else if v.len() == 1 {
        pair_of(v[0])
    } else {
        required_items(v.drop_last()) + marked(',', pair_of(v.last()))
    }
}

/// The items of optional pairs.
pub open spec fn optional_items(v: Seq<(Seq<char>, Seq<char>)>) -> Seq<Item>
    decreases v.len(),
{
    if v.len() == 0 {
        nil()
    } else {
        optional_items(v.drop_last()) + cons(group(one(marked(',', pair_of(v.last()))), Some('?')), nil())
    }
}

pub open spec fn symbols_known(v: Seq<(Seq<char>, Seq<char>)>, all: Seq<Seq<char>>) -> bool {
    forall|i: int| 0 <= i < v.len() ==> known((#[trigger] v[i]).1, all)
}

proof fn lemma_required_items(v: Seq<(Seq<char>, Seq<char>)>, all: Seq<Seq<char>>)
    requires
        basics(all),
        v.len() > 0,
        symbols_known(v, all),
    ensures
        items_ok(required_items(v), all, true),
        items_text(required_items(v)) == seq![' '] + joined(pairs(v), " ws \",\" ws "@),
    decreases v.len(),
{
    reveal_strlit(" ws \",\" ws ");
    let ps = pairs(v);
    if v.len() == 1 {
        lemma_pair_of(v[0], all);
        assert(joined(ps, " ws \",\" ws "@) == ps[0]);
    } else {
        let prev = v.drop_last();
        assert forall|i: int| 0 <= i < prev.len() implies known((#[trigger] prev[i]).1, all) by {
            assert(known(v[i].1, all));
        }
        lemma_required_items(prev, all);
        assert(known(v[v.len() - 1].1, all));
        lemma_pair_of(v.last(), all);
        lemma_marked(',', pair_of(v.last()), all);
        lemma_items_concat(required_items(prev), marked(',', pair_of(v.last())), all, true);
        assert(ps.drop_last() =~= pairs(prev));
        assert(ps.last() == pair_text(v.last().0, v.last().1));
        assert(items_text(required_items(v)) =~= seq![' '] + joined(ps, " ws \",\" ws "@));
    }
}

proof fn lemma_optional_items(v: Seq<(Seq<char>, Seq<char>)>, all: Seq<Seq<char>>)
    requires
        basics(all),
        symbols_known(v, all),
    ensures
        items_ok(optional_items(v), all, true),
        items_text(optional_items(v)) == optional_pairs(pairs(v)),
    decreases v.len(),
{
    lemma_nil(all, true);
    let ps = pairs(v);
    if v.len() == 0 {
        assert(optional_pairs(ps) =~= seq![]);
    } else {
        reveal_strlit(" ( ws \",\" ws ");
        reveal_strlit(" )?");
        let prev = v.drop_last();
        assert forall|i: int| 0 <= i < prev.len() implies known((#[trigger] prev[i]).1, all) by {
            assert(known(v[i].1, all));
        }
        lemma_optional_items(prev, all);
        assert(known(v[v.len() - 1].1, all));
        let p = pair_of(v.last());
        lemma_pair_of(v.last(), all);
        lemma_marked(',', p, all);
        lemma_one(marked(',', p), all, true);
        let g = group(one(marked(',', p)), Some('?'));
        lemma_group_item(one(marked(',', p)), Some('?'), all, true);
        lemma_cons(g, nil(), all, true);
        lemma_items_concat(optional_items(prev), cons(g, nil()), all, true);
        assert(ps.drop_last() =~= pairs(prev));
        assert(ps.last() == pair_text(v.last().0, v.last().1));
        assert(items_text(cons(g, nil())) =~= optional_pair(ps.last()));
        assert(items_text(optional_items(v)) =~= optional_pairs(ps));
    }
}

/// What stands in an object: the required pairs, and behind them each optional one or not; without
/// required pairs nothing, or the first optional pair and each further one or not.
pub open spec fn object_items(req: Seq<(Seq<char>, Seq<char>)>, opt: Seq<(Seq<char>, Seq<char>)>) -> Seq<Item> {
    if req.len() > 0 {
        required_items(req) + optional_items(opt)
    } else {
        cons(group(one(pair_of(opt[0]) + optional_items(opt.drop_first())), Some('?')), nil())
    }
}

/// The rule of an object takes input at once.
pub proof fn lemma_object_form(
    r: Row,
    req: Seq<(Seq<char>, Seq<char>)>,
    opt: Seq<(Seq<char>, Seq<char>)>,
    all: Seq<Seq<char>>,
    rank: spec_fn(Seq<char>) -> nat,
)
    requires
        basics(all),
        symbols_known(req, all),
        symbols_known(opt, all),
        req.len() + opt.len() > 0,
        r.1 == object_body(pairs(req), pairs(opt)),
    ensures
        drawn(r, all, rank),
        seq![' '] + r.1 == alts_text(one(enclosed('{', object_items(req, opt), '}'))),
        alts_ok(one(enclosed('{', object_items(req, opt), '}')), all, true),
{
    reveal_strlit("\"{\" ws ");
    reveal_strlit(" ws \"}\"");
    reveal_strlit("( ");
    reveal_strlit(" )?");
    lemma_nil(all, true);
    if req.len() > 0 {
        lemma_required_items(req, all);
        lemma_optional_items(opt, all);
        let inner = required_items(req) + optional_items(opt);
        lemma_items_concat(required_items(req), optional_items(opt), all, true);
        assert(seq![' '] + r.1 =~= seq![' ', '"', '{', '"', ' ', 'w', 's'] + items_text(inner) + seq![
            ' ', 'w', 's', ' ', '"', '}', '"',
        ]);
        lemma_enclosed_drawn(r, '{', inner, '}', all, rank);
    } else {
        let rest = opt.drop_first();
        assert forall|i: int| 0 <= i < rest.len() implies known((#[trigger] rest[i]).1, all) by {
            assert(known(opt[i + 1].1, all));
        }
        assert(known(opt[0].1, all));
        lemma_pair_of(opt[0], all);
        lemma_optional_items(rest, all);
        let x = pair_of(opt[0]) + optional_items(rest);
        lemma_items_concat(pair_of(opt[0]), optional_items(rest), all, true);
        lemma_one(x, all, true);
        lemma_group_item(one(x), Some('?'), all, true);
        let inner = cons(group(one(x), Some('?')), nil());
        lemma_cons(group(one(x), Some('?')), nil(), all, true);
        assert(pairs(opt).drop_first() =~= pairs(rest));
        assert(pairs(opt)[0] == pair_text(opt[0].0, opt[0].1));
        assert(seq![' '] + r.1 =~= seq![' ', '"', '{', '"', ' ', 'w', 's'] + items_text(inner) + seq![
            ' ', 'w', 's', ' ', '"', '}', '"',
        ]);
        lemma_enclosed_drawn(r, '{', inner, '}', all, rank);
    }
}

/// A rule of one of the forms keeps the order.
pub proof fn lemma_formed_drawn(
    r: Row,
    rules: Seq<Row>,
    rk: Map<Seq<char>, nat>,
    all: Seq<Seq<char>>,
    rank: spec_fn(Seq<char>) -> nat,
)
    requires
        basics(all),
        formed(r, rules, rk),
        forall|x: Seq<char>| #[trigger] meant(x, rules) ==> known(x, all) && rank(x) == rank_in(rk, x),
        rank(r.0) >= rank_in(rk, r.0),
    ensures
        drawn(r, all, rank),
{
    let f = choose|f: Form| #[trigger] form_ok(f, r.0, rules, rk) && r.1 == form_body(f);
    match f {
        Form::Lits(ts) => {
            if ts.len() > 0 {
                lemma_texts(ts, all);
                assert(drawn_as(r, texts(ts), all, rank));
            }
        },
        Form::List(x) => {
            assert(known(x, all));
            lemma_list_drawn(r, x, all, rank);
        },
        Form::Obj(req, opt) => {
            assert forall|i: int| 0 <= i < req.len() implies known((#[trigger] req[i]).1, all) by {
                assert(meant(req[i].1, rules));
            }
            assert forall|i: int| 0 <= i < opt.len() implies known((#[trigger] opt[i]).1, all) by {
                assert(meant(opt[i].1, rules));
            }
            lemma_object_form(r, req, opt, all, rank);
        },
        Form::Names(ns) => {
            if ns.len() > 0 {
                assert forall|i: int| 0 <= i < ns.len() implies (#[trigger] ns[i]).len() > 0 && name_index(all, ns[i]) >= 0
                    && rank(ns[i]) < rank(r.0) by {
                    assert(meant(ns[i], rules));
                    assert(known(ns[i], all));
                }
                assert forall|i: int, j: int| 0 <= i < ns.len() && 0 <= j < ns[i].len() implies name_char(
                    #[trigger] ns[i][j],
                ) by {
                    assert(meant(ns[i], rules));
                    assert(known(ns[i], all));
                }
                lemma_choice_drawn(r, ns, all, rank);
            }
        },
    }
}

} // verus!
