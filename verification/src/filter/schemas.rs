//! Which schemas have a filter: those in which no definition leads to itself.
use vstd::prelude::*;
use crate::filter::automaton::sound_from;
use crate::filter::constants::lits_of;
use crate::filter::drafts::hidden;
use crate::filter::forms::schema_rules_are_clean;
use crate::filter::json_schema::{
    before, def_names, def_of, definitions_have_their_own_rules, fresh, is_required, joined, last_part, lemma_decimal_differs,
    lemma_decimal_digits, lemma_def_named, lemma_member_smaller, lemma_pending_bound, lemma_pending_less, lemma_put_names,
    list_body, lit_text, lits, members, named_in, node, nodes, object_body, ordered, pair_text, pending, prelude, put, ref_name,
    rules_text, schema_text, sketch_of, writing_keeps_order, Row, Sketch,
};
use crate::filter::orders::{drawn, drawn_rules_are_sound, names_of, own_names};
use crate::filter::prelude_shapes::{basics, known, lemma_choice_drawn, preludes_are_drawn};
use crate::filter::ranking::{
    basic_rank, form_body, form_ok, formed, lemma_basic_names, lemma_basics_first, lemma_formed_drawn, lemma_index_there,
    lemma_ranks_basic, meant, pairs, rank_in, Form,
};
use crate::filter::reading::clean;
use crate::filter::syntax::grammar_of;
use crate::json::{compact_text, list_at, member, text_at, Json};
use crate::text::decimal;

verus! {

/// How high the symbol of a schema node ranks, where `f` gives the ranks of the definitions: a
/// reference as its definition, a choice above what it chooses from, and all else at the bottom.
pub open spec fn height(root: Json, f: spec_fn(Seq<char>) -> nat, s: Json) -> nat
    decreases s, 0nat,
{
    proof {
        lemma_member_smaller(s, "anyOf"@);
        lemma_member_smaller(s, "oneOf"@);
    }
    match text_at(s, "$ref"@) {
        Some(r) => if def_of(root, last_part(r)) is Some {
            f(last_part(r))
        } else {
            1
        },
        None => if member(s, "const"@) is Some || list_at(s, "enum"@) is Some {
            1
        } else {
            match member(s, "anyOf"@) {
                Some(Json::List(vs)) => 1 + heights(root, f, vs@, vs@.len()),
                _ => match member(s, "oneOf"@) {
                    Some(Json::List(vs)) => 1 + heights(root, f, vs@, vs@.len()),
                    _ => 1,
                },
            }
        },
    }
}

/// The highest rank of the first `n` of some schema nodes.
pub open spec fn heights(root: Json, f: spec_fn(Seq<char>) -> nat, vs: Seq<Json>, n: nat) -> nat
    decreases vs, n,
{
    if n == 0 || n > vs.len() {
        0
    } else {
        let a = heights(root, f, vs, (n - 1) as nat);
        let b = height(root, f, vs[n - 1]);
        if a < b {
            b
        } else {
            a
        }
    }
}

/// Whether each definition ranks above what it is, or is a choice from: then none leads to itself
/// before it takes input.
pub open spec fn ranked(root: Json, f: spec_fn(Seq<char>) -> nat) -> bool {
    forall|name: Seq<char>| #[trigger] def_of(root, name) matches Some(def) ==> height(root, f, def) < f(name)
}

/// Whether a name is that of one of the first `n` numbered rules.
pub open spec fn is_number(k: Seq<char>, n: int) -> bool {
    exists|j: nat| 1 <= j <= n && k == seq!['n'] + #[trigger] decimal(j)
}

/// Whether a name is that of a definition's rule.
pub open spec fn is_ref(k: Seq<char>) -> bool {
    exists|x: Seq<char>| k == #[trigger] ref_name(x)
}

/// What holds of the rules of a schema while they are made.
pub open spec fn sketched(c: Sketch, rk: Map<Seq<char>, nat>, f: spec_fn(Seq<char>) -> nat) -> bool {
    &&& c.n <= c.rules.len()
    &&& ordered(c.rules)
    &&& forall|k: Seq<char>| #[trigger] rk.dom().contains(k) <==> named_in(c.rules, k)
    &&& forall|k: Seq<char>| #[trigger] named_in(c.rules, k) ==> is_number(k, c.n as int) || is_ref(k)
    &&& forall|x: Seq<char>| rk.dom().contains(#[trigger] ref_name(x)) ==> rk[ref_name(x)] == f(x)
    &&& forall|i: int| 0 <= i < c.rules.len() ==> formed(#[trigger] c.rules[i], c.rules, rk)
}

/// Whether rules came of others by more rules, with the ranks of those that were there.
pub open spec fn later(a: Seq<Row>, rk: Map<Seq<char>, nat>, b: Seq<Row>, rk2: Map<Seq<char>, nat>) -> bool {
    &&& forall|k: Seq<char>| named_in(a, k) ==> #[trigger] named_in(b, k)
    &&& forall|k: Seq<char>| #[trigger] rk.dom().contains(k) ==> rk2.dom().contains(k) && rk2[k] == rk[k]
}

/// The rows that writing a rule leaves.
pub proof fn lemma_put_rows(rules: Seq<Row>, name: Seq<char>, body: Seq<char>)
    ensures
        forall|i: int|
            0 <= i < put(rules, name, body).len() ==> #[trigger] put(rules, name, body)[i] == (name, body) || exists|j: int|
                0 <= j < rules.len() && #[trigger] rules[j] == put(rules, name, body)[i],
        rules.len() <= put(rules, name, body).len(),
        !named_in(rules, name) ==> put(rules, name, body).len() == rules.len() + 1,
    decreases rules.len(),
{
    let p = put(rules, name, body);
    if rules.len() == 0 {
    } else if rules[0].0 == name {
        assert(named_in(rules, name));
        assert forall|i: int| 0 <= i < p.len() implies #[trigger] p[i] == (name, body) || exists|j: int|
            0 <= j < rules.len() && #[trigger] rules[j] == p[i] by {
            if i > 0 {
                assert(rules[i] == p[i]);
            }
        }
    } else if before(name, rules[0].0) {
        assert forall|i: int| 0 <= i < p.len() implies #[trigger] p[i] == (name, body) || exists|j: int|
            0 <= j < rules.len() && #[trigger] rules[j] == p[i] by {
            if i > 0 {
                assert(rules[i - 1] == p[i]);
            }
        }
    } else {
        let rest = rules.drop_first();
        lemma_put_rows(rest, name, body);
        let q = put(rest, name, body);
        assert forall|i: int| 0 <= i < p.len() implies #[trigger] p[i] == (name, body) || exists|j: int|
            0 <= j < rules.len() && #[trigger] rules[j] == p[i] by {
            if i == 0 {
                assert(rules[0] == p[0]);
            } else {
                assert(q[i - 1] == p[i]);
                if q[i - 1] != (name, body) {
                    let j = choose|j: int| 0 <= j < rest.len() && #[trigger] rest[j] == q[i - 1];
                    assert(rules[j + 1] == p[i]);
                }
            }
        }
        if !named_in(rules, name) && named_in(rest, name) {
            let j = choose|j: int| 0 <= j < rest.len() && (#[trigger] rest[j]).0 == name;
            assert(rules[j + 1].0 == name);
        }
    }
}

/// The names of numbered rules and of definitions' rules are not those of the first rules, nor the
/// root's.
proof fn lemma_own(k: Seq<char>, n: int)
    requires
        is_number(k, n) || is_ref(k),
    ensures
        forall|i: int| 0 <= i < 9 ==> (#[trigger] prelude()[i]).0 != k,
        k != "root"@,
        !hidden(k),
{
    lemma_basic_names();
    if is_number(k, n) {
        let j = choose|j: nat| 1 <= j <= n && k == seq!['n'] + #[trigger] decimal(j);
        lemma_decimal_digits(j);
        assert(k[0] == 'n');
        assert(k[1] == decimal(j)[0]);
        assert('0' <= decimal(j)[0] <= '9');
    } else {
        let x = choose|x: Seq<char>| k == #[trigger] ref_name(x);
        reveal_strlit("ref_");
        assert(k[0] == 'r' && k[1] == 'e');
    }
}

/// Rules keep their form when more are written.
proof fn lemma_formed_stays(r: Row, a: Seq<Row>, rk: Map<Seq<char>, nat>, b: Seq<Row>, rk2: Map<Seq<char>, nat>)
    requires
        formed(r, a, rk),
        later(a, rk, b, rk2),
        rk.dom().contains(r.0),
        forall|k: Seq<char>| #[trigger] rk.dom().contains(k) <==> named_in(a, k),
        forall|i: int| 0 <= i < 9 ==> !rk2.dom().contains((#[trigger] prelude()[i]).0),
    ensures
        formed(r, b, rk2),
{
    let f = choose|f: Form| #[trigger] form_ok(f, r.0, a, rk) && r.1 == form_body(f);
    assert forall|x: Seq<char>| meant(x, a) implies #[trigger] meant(x, b) && rank_in(rk2, x) == rank_in(rk, x) by {
        if named_in(a, x) {
            assert(rk.dom().contains(x));
            assert(named_in(b, x));
        } else {
            let i = choose|i: int| 0 <= i < 9 && (#[trigger] prelude()[i]).0 == x;
            assert(!rk2.dom().contains(prelude()[i].0));
            assert(!rk.dom().contains(x));
        }
    }
    assert(form_ok(f, r.0, b, rk2)) by {
        match f {
            Form::Lits(_) => {},
            Form::List(x) => {
                assert(meant(x, b));
            },
            Form::Obj(req, opt) => {
                assert forall|i: int| 0 <= i < req.len() implies meant((#[trigger] req[i]).1, b) by {
                    assert(meant(req[i].1, a));
                }
                assert forall|i: int| 0 <= i < opt.len() implies meant((#[trigger] opt[i]).1, b) by {
                    assert(meant(opt[i].1, a));
                }
            },
            Form::Names(ns) => {
                assert forall|i: int| 0 <= i < ns.len() implies meant(#[trigger] ns[i], b) && rank_in(rk2, ns[i]) < rank_in(
                    rk2,
                    r.0,
                ) by {
                    assert(meant(ns[i], a));
                    assert(meant(ns[i], b));
                }
            },
        }
    }
}

/// One more rule of a form, or another form of a rule.
proof fn lemma_put_formed(
    c: Sketch,
    n: usize,
    rk: Map<Seq<char>, nat>,
    f: spec_fn(Seq<char>) -> nat,
    name: Seq<char>,
    form: Form,
    h: nat,
)
    requires
        sketched(c, rk, f),
        c.n <= n,
        n <= put(c.rules, name, form_body(form)).len(),
        is_number(name, n as int) || is_ref(name),
        rk.dom().contains(name) ==> rk[name] == h,
        forall|x: Seq<char>| #[trigger] ref_name(x) == name ==> h == f(x),
        form_ok(form, name, put(c.rules, name, form_body(form)), rk.insert(name, h)),
    ensures
        sketched(Sketch { rules: put(c.rules, name, form_body(form)), n }, rk.insert(name, h), f),
        later(c.rules, rk, put(c.rules, name, form_body(form)), rk.insert(name, h)),
        named_in(put(c.rules, name, form_body(form)), name),
{
    let body = form_body(form);
    let b = put(c.rules, name, body);
    let rk2 = rk.insert(name, h);
    let d = Sketch { rules: b, n };
    lemma_put_rows(c.rules, name, body);
    writing_keeps_order(c.rules, name, body);
    assert forall|k: Seq<char>| #[trigger] named_in(b, k) == (named_in(c.rules, k) || k == name) by {
        lemma_put_names(c.rules, name, body, k);
    }
    assert forall|k: Seq<char>| #[trigger] rk2.dom().contains(k) <==> named_in(b, k) by {
        assert(rk.dom().contains(k) <==> named_in(c.rules, k));
    }
    assert forall|k: Seq<char>| #[trigger] named_in(b, k) implies is_number(k, n as int) || is_ref(k) by {
        if k != name {
            assert(named_in(c.rules, k));
            if is_number(k, c.n as int) {
                let j = choose|j: nat| 1 <= j <= c.n && k == seq!['n'] + #[trigger] decimal(j);
                assert(1 <= j <= n && k == seq!['n'] + decimal(j));
            }
        }
    }
    assert forall|i: int| 0 <= i < 9 implies !rk2.dom().contains((#[trigger] prelude()[i]).0) by {
        let k = prelude()[i].0;
        if rk2.dom().contains(k) {
            assert(named_in(b, k));
            lemma_own(k, n as int);
        }
    }
    assert(later(c.rules, rk, b, rk2));
    assert forall|i: int| 0 <= i < b.len() implies formed(#[trigger] b[i], b, rk2) by {
        if b[i] != (name, body) {
            let j = choose|j: int| 0 <= j < c.rules.len() && #[trigger] c.rules[j] == b[i];
            assert(named_in(c.rules, c.rules[j].0));
            assert(rk.dom().contains(c.rules[j].0));
            lemma_formed_stays(c.rules[j], c.rules, rk, b, rk2);
        }
    }
    assert forall|x: Seq<char>| rk2.dom().contains(#[trigger] ref_name(x)) implies rk2[ref_name(x)] == f(x) by {
        if ref_name(x) != name {
            assert(rk.dom().contains(ref_name(x)));
        }
    }
}

/// A new numbered rule.
proof fn lemma_fresh_formed(c: Sketch, rk: Map<Seq<char>, nat>, f: spec_fn(Seq<char>) -> nat, form: Form, h: nat) -> (rk2: Map<
    Seq<char>,
    nat,
>)
    requires
        sketched(c, rk, f),
        fresh(c, form_body(form)).0.rules.len() < usize::MAX,
        match form {
            Form::Names(ns) => forall|i: int| 0 <= i < ns.len() ==> meant(#[trigger] ns[i], c.rules) && rank_in(rk, ns[i]) < h,
            _ => form_ok(form, seq![], c.rules, rk),
        },
    ensures
        ({
            let (d, x) = fresh(c, form_body(form));
            &&& sketched(d, rk2, f)
            &&& later(c.rules, rk, d.rules, rk2)
            &&& meant(x, d.rules)
            &&& rank_in(rk2, x) == h
        }),
{
    let body = form_body(form);
    let (d, x) = fresh(c, body);
    let b = d.rules;
    let n = c.n.wrapping_add(1);
    lemma_put_rows(c.rules, x, body);
    assert(c.n < usize::MAX);
    assert(n == c.n + 1);
    assert(x == seq!['n'] + decimal(n as nat));
    assert(is_number(x, n as int)) by {
        assert(1 <= n as nat <= n && x == seq!['n'] + decimal(n as nat));
    }
    assert(!named_in(c.rules, x)) by {
        if named_in(c.rules, x) {
            if is_number(x, c.n as int) {
                let j = choose|j: nat| 1 <= j <= c.n && x == seq!['n'] + #[trigger] decimal(j);
                assert(decimal(j) =~= x.skip(1));
                assert(decimal(n as nat) =~= x.skip(1));
                lemma_decimal_differs(j, n as nat);
            } else {
                let y = choose|y: Seq<char>| x == #[trigger] ref_name(y);
                reveal_strlit("ref_");
                assert(x[0] == 'r');
            }
        }
    }
    let rk2 = rk.insert(x, h);
    assert forall|y: Seq<char>| #[trigger] ref_name(y) == x implies h == f(y) by {
        reveal_strlit("ref_");
        assert(ref_name(y)[0] == 'r');
        assert(x[0] == 'n');
    }
    assert forall|k: Seq<char>| #[trigger] named_in(b, k) == (named_in(c.rules, k) || k == x) by {
        lemma_put_names(c.rules, x, body, k);
    }
    assert(form_ok(form, x, b, rk2)) by {
        lemma_own(x, n as int);
        match form {
            Form::Lits(_) => {},
            Form::List(y) => {
                assert(meant(y, c.rules));
                if named_in(c.rules, y) {
                    assert(named_in(b, y));
                }
            },
            Form::Obj(req, opt) => {
                assert forall|i: int| 0 <= i < req.len() implies meant((#[trigger] req[i]).1, b) by {
                    assert(meant(req[i].1, c.rules));
                    if named_in(c.rules, req[i].1) {
                        assert(named_in(b, req[i].1));
                    }
                }
                assert forall|i: int| 0 <= i < opt.len() implies meant((#[trigger] opt[i]).1, b) by {
                    assert(meant(opt[i].1, c.rules));
                    if named_in(c.rules, opt[i].1) {
                        assert(named_in(b, opt[i].1));
                    }
                }
            },
            Form::Names(ns) => {
                assert forall|i: int| 0 <= i < ns.len() implies meant(#[trigger] ns[i], b) && rank_in(rk2, ns[i]) < rank_in(
                    rk2,
                    x,
                ) by {
                    assert(meant(ns[i], c.rules));
                    if named_in(c.rules, ns[i]) {
                        assert(named_in(b, ns[i]));
                    }
                    assert(ns[i] != x);
                }
            },
        }
    }
    lemma_put_formed(c, n, rk, f, x, form, h);
    rk2
}

proof fn lemma_later_on(
    a: Seq<Row>,
    ra: Map<Seq<char>, nat>,
    b: Seq<Row>,
    rb: Map<Seq<char>, nat>,
    c: Seq<Row>,
    rc: Map<Seq<char>, nat>,
)
    requires
        later(a, ra, b, rb),
        later(b, rb, c, rc),
    ensures
        later(a, ra, c, rc),
{
    assert forall|k: Seq<char>| named_in(a, k) implies #[trigger] named_in(c, k) by {
        assert(named_in(b, k));
    }
    assert forall|k: Seq<char>| #[trigger] ra.dom().contains(k) implies rc.dom().contains(k) && rc[k] == ra[k] by {
        assert(rb.dom().contains(k));
    }
}

/// A symbol keeps its meaning and its rank when more rules are written.
proof fn lemma_meant_stays(
    x: Seq<char>,
    a: Seq<Row>,
    ra: Map<Seq<char>, nat>,
    d: Sketch,
    rb: Map<Seq<char>, nat>,
    f: spec_fn(Seq<char>) -> nat,
)
    requires
        meant(x, a),
        forall|k: Seq<char>| #[trigger] ra.dom().contains(k) <==> named_in(a, k),
        sketched(d, rb, f),
        later(a, ra, d.rules, rb),
    ensures
        meant(x, d.rules),
        rank_in(rb, x) == rank_in(ra, x),
{
    if named_in(a, x) {
        assert(ra.dom().contains(x));
        assert(named_in(d.rules, x));
    } else {
        let i = choose|i: int| 0 <= i < 9 && (#[trigger] prelude()[i]).0 == x;
        if rb.dom().contains(x) {
            assert(named_in(d.rules, x));
            lemma_own(x, d.n as int);
        }
        assert(!ra.dom().contains(x));
    }
}

/// The first rules' names are symbols at the bottom.
proof fn lemma_basic_symbol(i: int, c: Sketch, rk: Map<Seq<char>, nat>, f: spec_fn(Seq<char>) -> nat)
    requires
        0 <= i < 9,
        sketched(c, rk, f),
    ensures
        meant(prelude()[i].0, c.rules),
        rank_in(rk, prelude()[i].0) <= 1,
{
    let x = prelude()[i].0;
    if rk.dom().contains(x) {
        assert(named_in(c.rules, x));
        lemma_own(x, c.n as int);
    }
}

/// How many definitions have no rule yet.
pub open spec fn pend(root: Json, rules: Seq<Row>) -> nat {
    pending(def_names(root), rules, def_names(root).len())
}

proof fn lemma_pend_later(root: Json, a: Seq<Row>, ra: Map<Seq<char>, nat>, b: Seq<Row>, rb: Map<Seq<char>, nat>)
    requires
        later(a, ra, b, rb),
    ensures
        pend(root, b) <= pend(root, a),
{
    lemma_pending_less(def_names(root), a, b, def_names(root).len());
}

/// Making rules adds to them.
proof fn lemma_node_adds(root: Json, depth: nat, c: Sketch, s: Json)
    ensures
        c.rules.len() <= node(root, depth, c, s).0.rules.len(),
    decreases depth, s, 0nat,
{
    lemma_member_smaller(s, "anyOf"@);
    lemma_member_smaller(s, "oneOf"@);
    lemma_member_smaller(s, "items"@);
    lemma_member_smaller(s, "properties"@);
    assert forall|d: Sketch, body: Seq<char>| d.rules.len() <= (#[trigger] fresh(d, body)).0.rules.len() by {
        lemma_put_rows(d.rules, seq!['n'] + decimal(d.n.wrapping_add(1) as nat), body);
    }
    match text_at(s, "$ref"@) {
        Some(r) => {
            let key = ref_name(last_part(r));
            match def_of(root, last_part(r)) {
                Some(def) => if !named_in(c.rules, key) && depth > 0 {
                    let open = Sketch { rules: put(c.rules, key, "value"@), ..c };
                    lemma_put_rows(c.rules, key, "value"@);
                    lemma_node_adds(root, (depth - 1) as nat, open, def);
                    let (d, body) = node(root, (depth - 1) as nat, open, def);
                    lemma_put_rows(d.rules, key, body);
                },
                None => {},
            }
        },
        None => {
            match member(s, "anyOf"@) {
                Some(Json::List(vs)) => {
                    lemma_nodes_add(root, depth, c, vs@, vs@.len());
                },
                _ => {},
            }
            match member(s, "oneOf"@) {
                Some(Json::List(vs)) => {
                    lemma_nodes_add(root, depth, c, vs@, vs@.len());
                },
                _ => {},
            }
            match member(s, "items"@) {
                Some(it) => {
                    lemma_node_adds(root, depth, c, it);
                },
                None => {},
            }
            match member(s, "properties"@) {
                Some(Json::Object(o)) => {
                    lemma_members_add(root, depth, c, s, o@, o@.len());
                },
                _ => {},
            }
        },
    }
}

proof fn lemma_nodes_add(root: Json, depth: nat, c: Sketch, vs: Seq<Json>, n: nat)
    ensures
        c.rules.len() <= nodes(root, depth, c, vs, n).0.rules.len(),
    decreases depth, vs, n,
{
    if 0 < n <= vs.len() {
        lemma_nodes_add(root, depth, c, vs, (n - 1) as nat);
        lemma_node_adds(root, depth, nodes(root, depth, c, vs, (n - 1) as nat).0, vs[n - 1]);
    }
}

proof fn lemma_members_add(root: Json, depth: nat, c: Sketch, s: Json, o: Seq<(String, Json)>, n: nat)
    ensures
        c.rules.len() <= members(root, depth, c, s, o, n).0.rules.len(),
    decreases depth, o, n,
{
    if 0 < n <= o.len() {
        assert(decreases_to!(o => o[n - 1]));
        assert(decreases_to!(o[n - 1] => o[n - 1].1));
        lemma_members_add(root, depth, c, s, o, (n - 1) as nat);
        lemma_node_adds(root, depth, members(root, depth, c, s, o, (n - 1) as nat).0, o[n - 1].1);
    }
}

/// What is known of the symbol of a schema node, and of the rules that it needs.
pub open spec fn node_done(
    root: Json,
    f: spec_fn(Seq<char>) -> nat,
    c: Sketch,
    rk: Map<Seq<char>, nat>,
    d: Sketch,
    x: Seq<char>,
    rk2: Map<Seq<char>, nat>,
    s: Json,
) -> bool {
    &&& sketched(d, rk2, f)
    &&& later(c.rules, rk, d.rules, rk2)
    &&& meant(x, d.rules)
    &&& rank_in(rk2, x) <= height(root, f, s)
}

/// A schema node becomes rules that keep the order.
pub proof fn lemma_node_formed(
    root: Json,
    f: spec_fn(Seq<char>) -> nat,
    depth: nat,
    c: Sketch,
    rk: Map<Seq<char>, nat>,
    s: Json,
) -> (rk2: Map<Seq<char>, nat>)
    requires
        ranked(root, f),
        sketched(c, rk, f),
        pend(root, c.rules) <= depth,
        node(root, depth, c, s).0.rules.len() < usize::MAX,
    ensures
        node_done(root, f, c, rk, node(root, depth, c, s).0, node(root, depth, c, s).1, rk2, s),
    decreases depth, s, 2nat,
{
    lemma_member_smaller(s, "anyOf"@);
    lemma_member_smaller(s, "oneOf"@);
    match text_at(s, "$ref"@) {
        Some(r) => lemma_ref_formed(root, f, depth, c, rk, s, r),
        None => match member(s, "const"@) {
            Some(v) => {
                let ts = seq![compact_text(v)];
                assert(lits_of(ts) =~= seq![lit_text(v)]);
                assert(form_body(Form::Lits(ts)) == lit_text(v));
                lemma_fresh_formed(c, rk, f, Form::Lits(ts), 1)
            },
            None => match list_at(s, "enum"@) {
                Some(vs) => {
                    let ts = Seq::new(vs.len(), |i: int| compact_text(vs[i]));
                    assert(lits_of(ts) =~= lits(vs));
                    lemma_fresh_formed(c, rk, f, Form::Lits(ts), 1)
                },
                None => match member(s, "anyOf"@) {
                    Some(Json::List(vs)) => lemma_choice_formed(root, f, depth, c, rk, vs@),
                    _ => match member(s, "oneOf"@) {
                        Some(Json::List(vs)) => lemma_choice_formed(root, f, depth, c, rk, vs@),
                        _ => lemma_typed_formed(root, f, depth, c, rk, s),
                    },
                },
            },
        },
    }
}

/// A reference becomes its definition's rule.
proof fn lemma_ref_formed(
    root: Json,
    f: spec_fn(Seq<char>) -> nat,
    depth: nat,
    c: Sketch,
    rk: Map<Seq<char>, nat>,
    s: Json,
    r: Seq<char>,
) -> (rk2: Map<Seq<char>, nat>)
    requires
        ranked(root, f),
        sketched(c, rk, f),
        pend(root, c.rules) <= depth,
        node(root, depth, c, s).0.rules.len() < usize::MAX,
        text_at(s, "$ref"@) == Some(r),
    ensures
        node_done(root, f, c, rk, node(root, depth, c, s).0, node(root, depth, c, s).1, rk2, s),
    decreases depth, s, 1nat,
{
    let name = last_part(r);
    let key = ref_name(name);
    lemma_basic_names();
    match def_of(root, name) {
        None => {
            lemma_basic_symbol(6, c, rk, f);
            assert(prelude()[6].0 == "value"@);
            rk
        },
        Some(def) => {
            if named_in(c.rules, key) {
                assert(rk.dom().contains(key));
                assert(rk[ref_name(name)] == f(name));
                rk
            } else {
                let at = lemma_def_named(root, name);
                let h = f(name);
                assert(height(root, f, def) < h);
                lemma_height(root, f, def);
                let ns = seq!["value"@];
                assert(joined(ns, " | "@) == "value"@);
                let open = Sketch { rules: put(c.rules, key, "value"@), ..c };
                let rk1 = rk.insert(key, h);
                lemma_put_rows(c.rules, key, "value"@);
                assert(is_ref(key));
                assert forall|x: Seq<char>| #[trigger] ref_name(x) == key implies h == f(x) by {
                    definitions_have_their_own_rules(x, name);
                }
                assert(form_ok(Form::Names(ns), key, open.rules, rk1)) by {
                    lemma_basic_symbol(6, c, rk, f);
                    lemma_own(key, 0);
                    assert(prelude()[6].0 == "value"@);
                    assert(meant("value"@, open.rules));
                    assert(rank_in(rk1, "value"@) == rank_in(rk, "value"@));
                    assert(rank_in(rk1, key) == h);
                }
                lemma_put_formed(c, c.n, rk, f, key, Form::Names(ns), h);
                lemma_pending_less(def_names(root), c.rules, open.rules, def_names(root).len());
                assert(def_names(root)[at] == name);
                assert(pend(root, open.rules) < pend(root, c.rules));
                assert(depth > 0);
                let e = (depth - 1) as nat;
                let (d, body) = node(root, e, open, def);
                lemma_put_rows(d.rules, key, body);
                let rk2 = lemma_node_formed(root, f, e, open, rk1, def);
                lemma_later_on(c.rules, rk, open.rules, rk1, d.rules, rk2);
                assert(rk1.dom().contains(key));
                assert(rk2[key] == h);
                let ms = seq![body];
                assert(joined(ms, " | "@) == body);
                let rk3 = rk2.insert(key, h);
                assert(rk3 =~= rk2);
                assert(form_ok(Form::Names(ms), key, put(d.rules, key, body), rk3)) by {
                    assert(meant(body, d.rules));
                    if named_in(d.rules, body) {
                        lemma_put_names(d.rules, key, body, body);
                    }
                    assert(meant(body, put(d.rules, key, body)));
                }
                lemma_put_formed(d, d.n, rk2, f, key, Form::Names(ms), h);
                lemma_later_on(c.rules, rk, d.rules, rk2, put(d.rules, key, body), rk3);
                rk3
            }
        },
    }
}

proof fn lemma_height(root: Json, f: spec_fn(Seq<char>) -> nat, s: Json)
    requires
        ranked(root, f),
    ensures
        height(root, f, s) >= 1,
{
    match text_at(s, "$ref"@) {
        Some(r) => {
            if def_of(root, last_part(r)) is Some {
                assert(height(root, f, def_of(root, last_part(r))->0) < f(last_part(r)));
            }
        },
        None => {},
    }
}

/// A choice becomes a rule above those that it chooses from.
proof fn lemma_choice_formed(
    root: Json,
    f: spec_fn(Seq<char>) -> nat,
    depth: nat,
    c: Sketch,
    rk: Map<Seq<char>, nat>,
    vs: Seq<Json>,
) -> (rk2: Map<Seq<char>, nat>)
    requires
        ranked(root, f),
        sketched(c, rk, f),
        pend(root, c.rules) <= depth,
        ({
            let (d, alts) = nodes(root, depth, c, vs, vs.len());
            fresh(d, joined(alts, " | "@)).0.rules.len() < usize::MAX
        }),
    ensures
        ({
            let (d, alts) = nodes(root, depth, c, vs, vs.len());
            let (e, x) = fresh(d, joined(alts, " | "@));
            &&& sketched(e, rk2, f)
            &&& later(c.rules, rk, e.rules, rk2)
            &&& meant(x, e.rules)
            &&& rank_in(rk2, x) <= 1 + heights(root, f, vs, vs.len())
        }),
    decreases depth, vs, vs.len() + 1,
{
    let (d, alts) = nodes(root, depth, c, vs, vs.len());
    lemma_put_rows(d.rules, fresh(d, joined(alts, " | "@)).1, joined(alts, " | "@));
    let rk1 = lemma_nodes_formed(root, f, depth, c, rk, vs, vs.len());
    let rk2 = lemma_fresh_formed(d, rk1, f, Form::Names(alts), 1 + heights(root, f, vs, vs.len()));
    lemma_later_on(c.rules, rk, d.rules, rk1, fresh(d, joined(alts, " | "@)).0.rules, rk2);
    rk2
}

pub proof fn lemma_nodes_formed(
    root: Json,
    f: spec_fn(Seq<char>) -> nat,
    depth: nat,
    c: Sketch,
    rk: Map<Seq<char>, nat>,
    vs: Seq<Json>,
    n: nat,
) -> (rk2: Map<Seq<char>, nat>)
    requires
        ranked(root, f),
        sketched(c, rk, f),
        pend(root, c.rules) <= depth,
        nodes(root, depth, c, vs, n).0.rules.len() < usize::MAX,
        n <= vs.len(),
    ensures
        ({
            let (d, alts) = nodes(root, depth, c, vs, n);
            &&& sketched(d, rk2, f)
            &&& later(c.rules, rk, d.rules, rk2)
            &&& forall|i: int|
                0 <= i < alts.len() ==> meant(#[trigger] alts[i], d.rules) && rank_in(rk2, alts[i]) <= heights(root, f, vs, n)
        }),
    decreases depth, vs, n,
{
    if n == 0 {
        rk
    } else {
        let m = (n - 1) as nat;
        let (d, alts) = nodes(root, depth, c, vs, m);
        let v = vs[n - 1];
        let (e, x) = node(root, depth, d, v);
        lemma_node_adds(root, depth, d, v);
        let rk1 = lemma_nodes_formed(root, f, depth, c, rk, vs, m);
        lemma_pend_later(root, c.rules, rk, d.rules, rk1);
        let rk2 = lemma_node_formed(root, f, depth, d, rk1, v);
        lemma_later_on(c.rules, rk, d.rules, rk1, e.rules, rk2);
        let all = alts.push(x);
        assert forall|i: int| 0 <= i < all.len() implies meant(#[trigger] all[i], e.rules) && rank_in(rk2, all[i]) <= heights(
            root,
            f,
            vs,
            n,
        ) by {
            if i < alts.len() {
                assert(all[i] == alts[i]);
                assert(meant(alts[i], d.rules));
                lemma_meant_stays(alts[i], d.rules, rk1, e, rk2, f);
            }
        }
        rk2
    }
}

/// The keys and symbols of those of the first `n` properties that are required, or that are not.
pub open spec fn picked(
    root: Json,
    depth: nat,
    c: Sketch,
    s: Json,
    o: Seq<(String, Json)>,
    n: nat,
    want: bool,
) -> Seq<(Seq<char>, Seq<char>)>
    decreases n,
{
    if n == 0 || n > o.len() {
        seq![]
    } else {
        let rest = picked(root, depth, c, s, o, (n - 1) as nat, want);
        let (d, _, _) = members(root, depth, c, s, o, (n - 1) as nat);
        if is_required(s, o[n - 1].0@) == want {
            rest.push((o[n - 1].0@, node(root, depth, d, o[n - 1].1).1))
        } else {
            rest
        }
    }
}

/// The pairs of an object's properties.
pub proof fn lemma_members_formed(
    root: Json,
    f: spec_fn(Seq<char>) -> nat,
    depth: nat,
    c: Sketch,
    rk: Map<Seq<char>, nat>,
    s: Json,
    o: Seq<(String, Json)>,
    n: nat,
) -> (r: (Map<Seq<char>, nat>, Seq<(Seq<char>, Seq<char>)>, Seq<(Seq<char>, Seq<char>)>))
    requires
        ranked(root, f),
        sketched(c, rk, f),
        pend(root, c.rules) <= depth,
        members(root, depth, c, s, o, n).0.rules.len() < usize::MAX,
        n <= o.len(),
    ensures
        ({
            let (d, req, opt) = members(root, depth, c, s, o, n);
            &&& sketched(d, r.0, f)
            &&& later(c.rules, rk, d.rules, r.0)
            &&& req == pairs(r.1)
            &&& opt == pairs(r.2)
            &&& r.1.len() + r.2.len() == n
            &&& r.1 == picked(root, depth, c, s, o, n, true)
            &&& r.2 == picked(root, depth, c, s, o, n, false)
            &&& forall|i: int| 0 <= i < r.1.len() ==> meant((#[trigger] r.1[i]).1, d.rules)
            &&& forall|i: int| 0 <= i < r.2.len() ==> meant((#[trigger] r.2[i]).1, d.rules)
        }),
    decreases depth, o, n,
{
    if n == 0 {
        let none: Seq<(Seq<char>, Seq<char>)> = seq![];
        assert(pairs(none) =~= seq![]);
        (rk, none, none)
    } else {
        assert(decreases_to!(o => o[n - 1]));
        assert(decreases_to!(o[n - 1] => o[n - 1].1));
        let m = (n - 1) as nat;
        let (d, req, opt) = members(root, depth, c, s, o, m);
        let v = o[n - 1].1;
        let key = o[n - 1].0@;
        let (e, x) = node(root, depth, d, v);
        lemma_node_adds(root, depth, d, v);
        let (rk1, a, b) = lemma_members_formed(root, f, depth, c, rk, s, o, m);
        lemma_pend_later(root, c.rules, rk, d.rules, rk1);
        let rk2 = lemma_node_formed(root, f, depth, d, rk1, v);
        lemma_later_on(c.rules, rk, d.rules, rk1, e.rules, rk2);
        assert forall|i: int| 0 <= i < a.len() implies meant((#[trigger] a[i]).1, e.rules) by {
            lemma_meant_stays(a[i].1, d.rules, rk1, e, rk2, f);
        }
        assert forall|i: int| 0 <= i < b.len() implies meant((#[trigger] b[i]).1, e.rules) by {
            lemma_meant_stays(b[i].1, d.rules, rk1, e, rk2, f);
        }
        if is_required(s, key) {
            let a2 = a.push((key, x));
            assert(pairs(a2) =~= req.push(pair_text(key, x)));
            (rk2, a2, b)
        } else {
            let b2 = b.push((key, x));
            assert(pairs(b2) =~= opt.push(pair_text(key, x)));
            (rk2, a, b2)
        }
    }
}

/// A node of some type becomes rules that keep the order.
proof fn lemma_typed_formed(
    root: Json,
    f: spec_fn(Seq<char>) -> nat,
    depth: nat,
    c: Sketch,
    rk: Map<Seq<char>, nat>,
    s: Json,
) -> (rk2: Map<Seq<char>, nat>)
    requires
        ranked(root, f),
        sketched(c, rk, f),
        pend(root, c.rules) <= depth,
        node(root, depth, c, s).0.rules.len() < usize::MAX,
        text_at(s, "$ref"@) is None,
        member(s, "const"@) is None,
        list_at(s, "enum"@) is None,
        !(member(s, "anyOf"@) matches Some(Json::List(_))),
        !(member(s, "oneOf"@) matches Some(Json::List(_))),
    ensures
        node_done(root, f, c, rk, node(root, depth, c, s).0, node(root, depth, c, s).1, rk2, s),
    decreases depth, s, 1nat,
{
    lemma_member_smaller(s, "items"@);
    lemma_member_smaller(s, "properties"@);
    assert forall|i: int| 0 <= i < 9 implies meant((#[trigger] prelude()[i]).0, c.rules) && rank_in(rk, prelude()[i].0) <= 1 by {
        lemma_basic_symbol(i, c, rk, f);
    }
    assert(prelude()[1].0 == "string"@ && prelude()[2].0 == "integer"@ && prelude()[3].0 == "number"@);
    assert(prelude()[4].0 == "boolean"@ && prelude()[5].0 == "null"@ && prelude()[6].0 == "value"@);
    assert(prelude()[7].0 == "object"@);
    match text_at(s, "type"@) {
        Some(t) => {
            if t == "string"@ || t == "integer"@ || t == "number"@ || t == "boolean"@ || t == "null"@ {
                rk
            } else if t == "array"@ {
                match member(s, "items"@) {
                    Some(it) => {
                        let (d, item) = node(root, depth, c, it);
                        lemma_put_rows(d.rules, fresh(d, list_body(item)).1, list_body(item));
                        let rk1 = lemma_node_formed(root, f, depth, c, rk, it);
                        let rk2 = lemma_fresh_formed(d, rk1, f, Form::List(item), 1);
                        lemma_later_on(c.rules, rk, d.rules, rk1, fresh(d, list_body(item)).0.rules, rk2);
                        rk2
                    },
                    None => lemma_fresh_formed(c, rk, f, Form::List("value"@), 1),
                }
            } else if t == "object"@ {
                match member(s, "properties"@) {
                    Some(Json::Object(o)) => {
                        if o@.len() > 0 {
                            let (d, req, opt) = members(root, depth, c, s, o@, o@.len());
                            let body = object_body(req, opt);
                            lemma_put_rows(d.rules, fresh(d, body).1, body);
                            let (rk1, a, b) = lemma_members_formed(root, f, depth, c, rk, s, o@, o@.len());
                            let rk2 = lemma_fresh_formed(d, rk1, f, Form::Obj(a, b), 1);
                            lemma_later_on(c.rules, rk, d.rules, rk1, fresh(d, body).0.rules, rk2);
                            rk2
                        } else {
                            rk
                        }
                    },
                    _ => rk,
                }
            } else {
                rk
            }
        },
        None => rk,
    }
}

/// A rule takes more than one character.
proof fn lemma_text_longer(rules: Seq<Row>)
    ensures
        rules_text(rules).len() >= 2 * rules.len(),
    decreases rules.len(),
{
    if rules.len() > 0 {
        reveal_strlit(" ::= ");
        lemma_text_longer(rules.drop_last());
    }
}

proof fn lemma_before_self(a: Seq<char>)
    ensures
        !before(a, a),
    decreases a.len(),
{
    if a.len() > 0 {
        lemma_before_self(a.drop_first());
    }
}

/// All rules of a schema, the first ones and the root's among them.
pub open spec fn all_rules(schema: Json) -> Seq<Row> {
    let (c, root) = sketch_of(schema);
    prelude().push(("root"@, root)) + c.rules
}

/// The ranks of all rules.
spec fn all_ranks(rk: Map<Seq<char>, nat>, top: nat, n: Seq<char>) -> nat {
    if n == "root"@ {
        top
    } else {
        rank_in(rk, n)
    }
}

/// The rules of a schema have different names.
proof fn lemma_names_differ(schema: Json, rk: Map<Seq<char>, nat>, f: spec_fn(Seq<char>) -> nat)
    requires
        sketched(sketch_of(schema).0, rk, f),
    ensures
        own_names(names_of(all_rules(schema))),
{
    lemma_basic_names();
    let c = sketch_of(schema).0;
    let rules = all_rules(schema);
    let all = names_of(rules);
    assert forall|i: int| 10 <= i < all.len() implies #[trigger] all[i] == c.rules[i - 10].0 && (is_number(all[i], c.n as int)
        || is_ref(all[i])) by {
        assert(rules[i] == c.rules[i - 10]);
        assert(named_in(c.rules, c.rules[i - 10].0));
    }
    assert forall|i: int| 0 <= i < 9 implies #[trigger] all[i] == prelude()[i].0 by {
        assert(rules[i] == prelude()[i]);
    }
    assert(all[9] == "root"@);
    assert forall|i: int, j: int| 0 <= i < j < all.len() implies #[trigger] all[i] != #[trigger] all[j] by {
        if j >= 10 {
            lemma_own(all[j], c.n as int);
            if i >= 10 {
                assert(before(c.rules[i - 10].0, c.rules[j - 10].0));
                lemma_before_self(all[i]);
            } else if i < 9 {
                assert(prelude()[i].0 != all[j]);
            }
        } else if j < 9 {
            assert(all[i] == prelude()[i].0 && all[j] == prelude()[j].0);
        } else {
            assert(all[i] == prelude()[i].0);
        }
    }
    assert forall|i: int| 0 <= i < all.len() implies !hidden(#[trigger] all[i]) by {
        if i >= 10 {
            lemma_own(all[i], c.n as int);
        } else if i < 9 {
            assert(all[i] == prelude()[i].0);
        }
    }
}

/// What is known of all rules of a ranked schema: they are written as they are read, and keep an
/// order.
pub proof fn lemma_schema_rules(schema: Json, f: spec_fn(Seq<char>) -> nat) -> (r: (
    Map<Seq<char>, nat>,
    spec_fn(Seq<char>) -> nat,
))
    requires
        ranked(schema, f),
        schema_text(schema).len() <= usize::MAX,
    ensures
        sketched(sketch_of(schema).0, r.0, f),
        sketch_of(schema).0.rules.len() < usize::MAX,
        schema_text(schema) == rules_text(all_rules(schema)),
        forall|i: int| 0 <= i < all_rules(schema).len() ==> clean(#[trigger] all_rules(schema)[i]),
        own_names(names_of(all_rules(schema))),
        basics(names_of(all_rules(schema))),
        forall|i: int|
            0 <= i < all_rules(schema).len() ==> drawn(#[trigger] all_rules(schema)[i], names_of(all_rules(schema)), r.1),
        all_rules(schema)[9] == ("root"@, sketch_of(schema).1),
        "root"@ == seq!['r', 'o', 'o', 't'],
        meant(sketch_of(schema).1, sketch_of(schema).0.rules),
        forall|x: Seq<char>|
            #[trigger] meant(x, sketch_of(schema).0.rules) ==> known(x, names_of(all_rules(schema))),
{
    let (c, sym) = sketch_of(schema);
    let rules = all_rules(schema);
    let all = names_of(rules);
    lemma_basic_names();
    lemma_text_longer(rules);
    assert(schema_text(schema) == rules_text(rules));
    assert(c.rules.len() < usize::MAX);
    let start = Sketch { rules: seq![], n: 0 };
    let none = Map::<Seq<char>, nat>::empty();
    assert(sketched(start, none, f));
    lemma_pending_bound(def_names(schema), start.rules, def_names(schema).len());
    let rk = lemma_node_formed(schema, f, def_names(schema).len(), start, none, schema);
    assert(sketched(c, rk, f));
    schema_rules_are_clean(schema);
    lemma_names_differ(schema, rk, f);
    let top = (rank_in(rk, sym) + 1) as nat;
    let rank = |n: Seq<char>| all_ranks(rk, top, n);
    assert forall|i: int| 0 <= i < 9 implies #[trigger] rules[i] == prelude()[i] by {}
    lemma_basics_first(rules);
    assert forall|i: int| 0 <= i < 9 implies rank((#[trigger] prelude()[i]).0) == basic_rank(prelude()[i].0) by {
        let k = prelude()[i].0;
        if rk.dom().contains(k) {
            assert(named_in(c.rules, k));
            lemma_own(k, c.n as int);
        }
    }
    lemma_ranks_basic(rank);
    preludes_are_drawn(all, rank);
    assert forall|x: Seq<char>| #[trigger] meant(x, c.rules) implies known(x, all) && rank(x) == rank_in(rk, x) by {
        lemma_meant_known(schema, rk, f, x);
        assert(x != "root"@);
    }
    assert forall|i: int| 0 <= i < rules.len() implies drawn(#[trigger] rules[i], all, rank) by {
        if i < 9 {
            assert(rules[i] == prelude()[i]);
        } else if i == 9 {
            assert(rules[9] == ("root"@, sym));
            let ns = seq![sym];
            assert(joined(ns, " | "@) == sym);
            assert(meant(sym, c.rules));
            assert(known(sym, all));
            lemma_choice_drawn(("root"@, sym), ns, all, rank);
        } else {
            assert(rules[i] == c.rules[i - 10]);
            assert(formed(c.rules[i - 10], c.rules, rk));
            assert(named_in(c.rules, rules[i].0));
            lemma_own(rules[i].0, c.n as int);
            lemma_formed_drawn(rules[i], c.rules, rk, all, rank);
        }
    }
    assert(rules[9] == ("root"@, sym));
    (rk, rank)
}

/// A machine always comes to rest on the grammar of a schema in which each definition ranks above
/// what it is, or is a choice from: no definition then leads to itself before it takes input. The
/// grammar's text must fit into the machine, and so must its rules.
pub proof fn ranked_schemas_are_sound(schema: Json, f: spec_fn(Seq<char>) -> nat)
    requires
        ranked(schema, f),
        schema_text(schema).len() <= usize::MAX,
    ensures
        grammar_of(schema_text(schema)) matches Ok((rs, root)) && (rs.len() <= usize::MAX ==> sound_from(rs, root)),
{
    let (_, rank) = lemma_schema_rules(schema, f);
    drawn_rules_are_sound(all_rules(schema), rank, 9);
}

/// A rule that was written stands among the rules.
pub proof fn lemma_put_there(rules: Seq<Row>, name: Seq<char>, body: Seq<char>) -> (i: int)
    ensures
        0 <= i < put(rules, name, body).len(),
        put(rules, name, body)[i] == (name, body),
    decreases rules.len(),
{
    if rules.len() == 0 || rules[0].0 == name || before(name, rules[0].0) {
        0
    } else {
        let j = lemma_put_there(rules.drop_first(), name, body);
        assert(put(rules, name, body)[j + 1] == put(rules.drop_first(), name, body)[j]);
        j + 1
    }
}

/// The symbols of a schema's rules are names of rules, and none is the root's.
proof fn lemma_meant_known(schema: Json, rk: Map<Seq<char>, nat>, f: spec_fn(Seq<char>) -> nat, x: Seq<char>)
    requires
        sketched(sketch_of(schema).0, rk, f),
        meant(x, sketch_of(schema).0.rules),
    ensures
        known(x, names_of(all_rules(schema))),
        x != "root"@,
{
    let c = sketch_of(schema).0;
    let rules = all_rules(schema);
    let all = names_of(rules);
    lemma_basic_names();
    schema_rules_are_clean(schema);
    let at = if named_in(c.rules, x) {
        lemma_own(x, c.n as int);
        let i = choose|i: int| 0 <= i < c.rules.len() && (#[trigger] c.rules[i]).0 == x;
        assert(rules[10 + i] == c.rules[i]);
        10 + i
    } else {
        let i = choose|i: int| 0 <= i < 9 && (#[trigger] prelude()[i]).0 == x;
        assert(rules[i] == prelude()[i]);
        i
    };
    assert(rules[at].0 == x);
    assert(clean(rules[at]));
    assert(all[at] == x);
    lemma_index_there(all, at);
}

/// A schema without definitions is ranked, whatever it refers to.
pub proof fn schemas_without_definitions_are_ranked(schema: Json, f: spec_fn(Seq<char>) -> nat)
    requires
        def_names(schema).len() == 0,
    ensures
        ranked(schema, f),
{
    assert forall|name: Seq<char>| (#[trigger] def_of(schema, name)) is None by {
        if def_of(schema, name) is Some {
            let i = lemma_def_named(schema, name);
        }
    }
}

} // verus!
