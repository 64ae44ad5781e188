//! A subset of JSON Schema as a grammar.
//!
//! Understood are `type`, `properties` with `required`, `items`, `enum`, `const`, `anyOf`,
//! `oneOf`, and `$ref` to a name under `$defs` or `definitions`. Other keywords are ignored,
//! which leaves the value unconstrained by them.
use vstd::prelude::*;
use crate::filter::automaton::Elem;
use crate::filter::ranking::any_object_is_sound;
use crate::filter::forms::schemas_compile;
use crate::filter::gbnf::{is_name_char, parse, Grammar};
use crate::filter::syntax::{escaped, grammar_of, literal, name_char, GrammarError};
use crate::json::{
    compact_text, get_list, get_str, json_string, lemma_member_index, list_at, member, member_index, quoted, same_text,
    text_at, to_text, Json,
};
use crate::text::{chars_of, copy_chars, decimal, digit, push_chars, push_decimal, push_text, same_chars, string_of};

verus! {

/// The rule of `ws`.
pub const WS_RULE: &'static str = "[ \\t\\n]*";

/// The rule of `string`.
pub const STRING_RULE: &'static str = "\"\\\"\" ( [^\"\\\\] | \"\\\\\" [\"\\\\/bfnrt] | \"\\\\u\" [0-9a-fA-F] [0-9a-fA-F] [0-9a-fA-F] [0-9a-fA-F] )* \"\\\"\"";

/// The rule of `integer`.
pub const INTEGER_RULE: &'static str = "\"-\"? ( \"0\" | [1-9] [0-9]* )";

/// The rule of `number`.
pub const NUMBER_RULE: &'static str = "\"-\"? ( \"0\" | [1-9] [0-9]* ) ( \".\" [0-9]+ )? ( [eE] [-+]? [0-9]+ )?";

/// The rule of `boolean`.
pub const BOOLEAN_RULE: &'static str = "\"true\" | \"false\"";

/// The rule of `null`.
pub const NULL_RULE: &'static str = "\"null\"";

/// The rule of `value`.
pub const VALUE_RULE: &'static str = "object | array | string | number | boolean | null";

/// The rule of `object`.
pub const OBJECT_RULE: &'static str = "\"{\" ws ( string ws \":\" ws value ( ws \",\" ws string ws \":\" ws value )* )? ws \"}\"";

/// The rule of `array`.
pub const ARRAY_RULE: &'static str = "\"[\" ws ( value ( ws \",\" ws value )* )? ws \"]\"";

/// A name and a text.
pub type Row = (Seq<char>, Seq<char>);

/// The rules that every grammar starts with.
pub open spec fn prelude() -> Seq<Row> {
    seq![
        ("ws"@, WS_RULE@),
        ("string"@, STRING_RULE@),
        ("integer"@, INTEGER_RULE@),
        ("number"@, NUMBER_RULE@),
        ("boolean"@, BOOLEAN_RULE@),
        ("null"@, NULL_RULE@),
        ("value"@, VALUE_RULE@),
        ("object"@, OBJECT_RULE@),
        ("array"@, ARRAY_RULE@),
    ]
}

/// The rules written so far, in order of their names, and how many have numbered names.
#[verifier::ext_equal]
pub struct Sketch {
    pub rules: Seq<Row>,
    pub n: usize,
}

/// Whether a name comes before another one, character by character.
pub open spec fn before(a: Seq<char>, b: Seq<char>) -> bool
    decreases a.len(),
{
    if b.len() == 0 {
        false
    } else if a.len() == 0 {
        true
    } else if a[0] != b[0] {
        (a[0] as u32) < (b[0] as u32)
    } else {
        before(a.drop_first(), b.drop_first())
    }
}

/// The rules with the one called `name`, in its place; it replaces one of that name.
pub open spec fn put(rules: Seq<Row>, name: Seq<char>, body: Seq<char>) -> Seq<Row>
    decreases rules.len(),
{
    if rules.len() == 0 {
        seq![(name, body)]
    } else if rules[0].0 == name {
        rules.update(0, (name, body))
    } else if before(name, rules[0].0) {
        seq![(name, body)] + rules
    } else {
        seq![rules[0]] + put(rules.drop_first(), name, body)
    }
}

/// Whether there is a rule called `name`.
pub open spec fn named_in(rules: Seq<Row>, name: Seq<char>) -> bool {
    exists|i: int| 0 <= i < rules.len() && (#[trigger] rules[i]).0 == name
}

/// A rule with the next numbered name, and that name.
pub open spec fn fresh(c: Sketch, body: Seq<char>) -> (Sketch, Seq<char>) {
    let n = c.n.wrapping_add(1);
    let name = seq!['n'] + decimal(n as nat);
    (Sketch { rules: put(c.rules, name, body), n }, name)
}

/// What follows the last slash of a reference.
pub open spec fn last_part(r: Seq<char>) -> Seq<char>
    decreases r.len(),
{
    if r.len() == 0 || r.last() == '/' {
        seq![]
    } else {
        last_part(r.drop_last()).push(r.last())
    }
}

/// The member `name` of the member `key`.
pub open spec fn nested(v: Json, key: Seq<char>, name: Seq<char>) -> Option<Json> {
    match member(v, key) {
        Some(x) => member(x, name),
        None => None,
    }
}

/// The definition called `name`.
pub open spec fn def_of(root: Json, name: Seq<char>) -> Option<Json> {
    match nested(root, "definitions"@, name) {
        Some(v) => Some(v),
        None => nested(root, "$defs"@, name),
    }
}

/// The names of an object's members.
pub open spec fn member_names(v: Option<Json>) -> Seq<Seq<char>> {
    match v {
        Some(Json::Object(o)) => Seq::new(o@.len(), |i: int| o@[i].0@),
        _ => seq![],
    }
}

/// The names of the definitions.
pub open spec fn def_names(root: Json) -> Seq<Seq<char>> {
    member_names(member(root, "$defs"@)) + member_names(member(root, "definitions"@))
}

/// A character of a definition's name in the name of its rule: one that a rule's name cannot have,
/// and the hyphen, by its code between hyphens.
pub open spec fn ref_char(c: char) -> Seq<char> {
    if name_char(c) && c != '-' {
        seq![c]
    } else {
        seq!['-'] + decimal(c as u32 as nat) + seq!['-']
    }
}

/// A definition's name in the name of its rule.
pub open spec fn ref_chars(name: Seq<char>) -> Seq<char>
    decreases name.len(),
{
    if name.len() == 0 {
        seq![]
    } else {
        ref_chars(name.drop_last()) + ref_char(name.last())
    }
}

/// The name of the rule of a definition.
pub open spec fn ref_name(name: Seq<char>) -> Seq<char> {
    "ref_"@ + ref_chars(name)
}

/// How many of the first `n` names have no rule yet.
pub open spec fn pending(names: Seq<Seq<char>>, rules: Seq<Row>, n: nat) -> nat
    decreases n,
{
    if n == 0 {
        0
    } else {
        pending(names, rules, (n - 1) as nat) + if named_in(rules, ref_name(names[n - 1])) {
            0nat
        } else {
            1nat
        }
    }
}

/// A character inside a grammar's literal.
pub open spec fn lit_char(c: char) -> Seq<char> {
    if c == '"' {
        "\\\""@
    } else if c == '\\' {
        "\\\\"@
    } else if c == '\n' {
        "\\n"@
    } else {
        seq![c]
    }
}

/// A text inside a grammar's literal.
pub open spec fn lit_chars(s: Seq<char>) -> Seq<char>
    decreases s.len(),
{
    if s.len() == 0 {
        seq![]
    } else {
        lit_chars(s.drop_last()) + lit_char(s.last())
    }
}

/// The literal that matches a text.
pub open spec fn lit_of(s: Seq<char>) -> Seq<char> {
    seq!['"'] + lit_chars(s) + seq!['"']
}

/// The literal that matches the compact JSON text of a value.
pub open spec fn lit_text(v: Json) -> Seq<char> {
    lit_of(compact_text(v))
}

/// Texts with a separator between them.
pub open spec fn joined(parts: Seq<Seq<char>>, sep: Seq<char>) -> Seq<char>
    decreases parts.len(),
{
    if parts.len() == 0 {
        seq![]
    } else if parts.len() == 1 {
        parts[0]
    } else {
        joined(parts.drop_last(), sep) + sep + parts.last()
    }
}

/// The literals of values.
pub open spec fn lits(vs: Seq<Json>) -> Seq<Seq<char>> {
    Seq::new(vs.len(), |i: int| lit_text(vs[i]))
}

/// The literal of a key, as JSON text, and the symbol of its value.
pub open spec fn pair_text(key: Seq<char>, symbol: Seq<char>) -> Seq<char> {
    lit_of(json_string(key)) + " ws \":\" ws "@ + symbol
}

/// A pair that may follow another one.
pub open spec fn optional_pair(pair: Seq<char>) -> Seq<char> {
    " ( ws \",\" ws "@ + pair + " )?"@
}

/// Pairs that may follow another one.
pub open spec fn optional_pairs(pairs: Seq<Seq<char>>) -> Seq<char>
    decreases pairs.len(),
{
    if pairs.len() == 0 {
        seq![]
    } else {
        optional_pairs(pairs.drop_last()) + optional_pair(pairs.last())
    }
}

/// An object's members: the required pairs in order, then each optional one; without
/// required pairs, nothing, or the first optional pair and each further one.
pub open spec fn members_body(req: Seq<Seq<char>>, opt: Seq<Seq<char>>) -> Seq<char> {
    if req.len() > 0 {
        joined(req, " ws \",\" ws "@) + optional_pairs(opt)
    } else if opt.len() > 0 {
        "( "@ + (opt[0] + optional_pairs(opt.drop_first())) + " )?"@
    } else {
        "( "@ + " )?"@
    }
}

/// The rule of an object with these members.
pub open spec fn object_body(req: Seq<Seq<char>>, opt: Seq<Seq<char>>) -> Seq<char> {
    "\"{\" ws "@ + members_body(req, opt) + " ws \"}\""@
}

/// The rule of a list of `item`.
pub open spec fn list_body(item: Seq<char>) -> Seq<char> {
    "\"[\" ws ( "@ + item + " ( ws \",\" ws "@ + item + " )* )? ws \"]\""@
}

/// Whether a text is among the values of a list.
pub open spec fn lists_text(a: Seq<Json>, t: Seq<char>) -> bool {
    exists|i: int| 0 <= i < a.len() && is_text(#[trigger] a[i], t)
}

/// Whether a value is a text.
pub open spec fn is_text(v: Json, t: Seq<char>) -> bool {
    match v {
        Json::Text(s) => s@ == t,
        _ => false,
    }
}

/// Whether a property is required.
pub open spec fn is_required(s: Json, key: Seq<char>) -> bool {
    match list_at(s, "required"@) {
        Some(a) => lists_text(a, key),
        None => false,
    }
}

/// What is smaller than a value.
pub proof fn lemma_member_smaller(v: Json, key: Seq<char>)
    ensures
        match member(v, key) {
            Some(x) => decreases_to!(v => x),
            None => true,
        },
        match member(v, key) {
            Some(Json::List(a)) => decreases_to!(v => a@),
            Some(Json::Object(o)) => decreases_to!(v => o@),
            _ => true,
        },
{
    match v {
        Json::Object(o) => {
            let p = member_index(o@, key);
            if 0 <= p < o@.len() {
                assert(decreases_to!(v => o@));
                assert(decreases_to!(o@ => o@[p]));
                assert(decreases_to!(o@[p] => o@[p].1));
                match o@[p].1 {
                    Json::List(a) => {
                        assert(decreases_to!(o@[p].1 => a@));
                    },
                    Json::Object(q) => {
                        assert(decreases_to!(o@[p].1 => q@));
                    },
                    _ => {},
                }
            }
        },
        _ => {},
    }
}

/// The rules after a schema node, and the symbol that matches the node's values. `depth`
/// bounds how many definitions are expanded inside one another.
pub open spec fn node(root: Json, depth: nat, c: Sketch, s: Json) -> (Sketch, Seq<char>)
    decreases depth, s, 0nat,
{
    proof {
        lemma_member_smaller(s, "anyOf"@);
        lemma_member_smaller(s, "oneOf"@);
        lemma_member_smaller(s, "items"@);
        lemma_member_smaller(s, "properties"@);
    }
    match text_at(s, "$ref"@) {
        Some(r) => {
            let name = last_part(r);
            let key = ref_name(name);
            match def_of(root, name) {
                Some(def) => if named_in(c.rules, key) || depth == 0 {
                    (c, key)
                } else {
                    let open = Sketch { rules: put(c.rules, key, "value"@), ..c };
                    let (d, body) = node(root, (depth - 1) as nat, open, def);
                    (Sketch { rules: put(d.rules, key, body), ..d }, key)
                },
                None => (c, "value"@),
            }
        },
        None => match member(s, "const"@) {
            Some(v) => fresh(c, lit_text(v)),
            None => match list_at(s, "enum"@) {
                Some(vs) => fresh(c, joined(lits(vs), " | "@)),
                None => match member(s, "anyOf"@) {
                    Some(Json::List(vs)) => {
                        let (d, alts) = nodes(root, depth, c, vs@, vs@.len());
                        fresh(d, joined(alts, " | "@))
                    },
                    _ => match member(s, "oneOf"@) {
                        Some(Json::List(vs)) => {
                            let (d, alts) = nodes(root, depth, c, vs@, vs@.len());
                            fresh(d, joined(alts, " | "@))
                        },
                        _ => match text_at(s, "type"@) {
                            Some(t) => if t == "string"@ || t == "integer"@ || t == "number"@ || t == "boolean"@
                                || t == "null"@ {
                                (c, t)
                            } else if t == "array"@ {
                                match member(s, "items"@) {
                                    Some(it) => {
                                        let (d, item) = node(root, depth, c, it);
                                        fresh(d, list_body(item))
                                    },
                                    None => fresh(c, list_body("value"@)),
                                }
                            } else if t == "object"@ {
                                match member(s, "properties"@) {
                                    Some(Json::Object(o)) if o@.len() > 0 => {
                                        let (d, req, opt) = members(root, depth, c, s, o@, o@.len());
                                        fresh(d, object_body(req, opt))
                                    },
                                    _ => (c, "object"@),
                                }
                            } else {
                                (c, "value"@)
                            },
                            None => (c, "value"@),
                        },
                    },
                },
            },
        },
    }
}

/// The rules after the first `n` of some schema nodes, and their symbols.
pub open spec fn nodes(root: Json, depth: nat, c: Sketch, vs: Seq<Json>, n: nat) -> (Sketch, Seq<Seq<char>>)
    decreases depth, vs, n,
{
    if n == 0 || n > vs.len() {
        (c, seq![])
    } else {
        let (d, alts) = nodes(root, depth, c, vs, (n - 1) as nat);
        let (e, x) = node(root, depth, d, vs[n - 1]);
        (e, alts.push(x))
    }
}

/// The rules after the first `n` properties of `s`, the required pairs and the optional
/// ones.
pub open spec fn members(root: Json, depth: nat, c: Sketch, s: Json, o: Seq<(String, Json)>, n: nat) -> (
    Sketch,
    Seq<Seq<char>>,
    Seq<Seq<char>>,
)
    decreases depth, o, n,
{
    if n == 0 || n > o.len() {
        (c, seq![], seq![])
    } else {
        proof {
            assert(decreases_to!(o => o[n - 1]));
            assert(decreases_to!(o[n - 1] => o[n - 1].1));
        }
        let (d, req, opt) = members(root, depth, c, s, o, (n - 1) as nat);
        let (e, x) = node(root, depth, d, o[n - 1].1);
        let pair = pair_text(o[n - 1].0@, x);
        if is_required(s, o[n - 1].0@) {
            (e, req.push(pair), opt)
        } else {
            (e, req, opt.push(pair))
        }
    }
}

/// A rule as a line.
pub open spec fn rule_line(r: Row) -> Seq<char> {
    r.0 + " ::= "@ + r.1 + "\n"@
}

/// Rules as lines.
pub open spec fn rules_text(rules: Seq<Row>) -> Seq<char>
    decreases rules.len(),
{
    if rules.len() == 0 {
        seq![]
    } else {
        rules_text(rules.drop_last()) + rule_line(rules.last())
    }
}

/// The rules and the root symbol of a schema.
pub open spec fn sketch_of(schema: Json) -> (Sketch, Seq<char>) {
    node(schema, def_names(schema).len(), Sketch { rules: seq![], n: 0 }, schema)
}

/// The grammar of a schema, as text. The root has no white space around it: the value must
/// start at once.
pub open spec fn schema_text(schema: Json) -> Seq<char> {
    let (c, root) = sketch_of(schema);
    rules_text(prelude().push(("root"@, root)) + c.rules)
}

/// The grammar of any JSON object, as text.
pub open spec fn any_text() -> Seq<char> {
    rules_text(prelude().push(("root"@, "object"@)))
}

/// The rows of some rules.
spec fn row_of(r: (Vec<char>, Vec<char>)) -> Row {
    (r.0@, r.1@)
}

spec fn rows_of(v: Seq<(Vec<char>, Vec<char>)>) -> Seq<Row> {
    Seq::new(v.len(), |i: int| row_of(v[i]))
}

spec fn parts_of(v: Seq<Vec<char>>) -> Seq<Seq<char>> {
    Seq::new(v.len(), |i: int| v[i]@)
}

fn comes_before(a: &Vec<char>, b: &Vec<char>) -> (r: bool)
    ensures
        r == before(a@, b@),
{
    let mut i: usize = 0;
    assert(a@.skip(0) =~= a@);
    assert(b@.skip(0) =~= b@);
    while i < a.len() && i < b.len()
        invariant
            i <= a@.len(),
            i <= b@.len(),
            before(a@, b@) == before(a@.skip(i as int), b@.skip(i as int)),
        decreases a@.len() - i,
    {
        let ghost x = a@.skip(i as int);
        let ghost y = b@.skip(i as int);
        assert(x[0] == a@[i as int] && y[0] == b@[i as int]);
        if a[i] != b[i] {
            return (a[i] as u32) < (b[i] as u32);
        }
        assert(x.drop_first() =~= a@.skip(i + 1));
        assert(y.drop_first() =~= b@.skip(i + 1));
        i = i + 1;
    }
    i < b.len()
}

proof fn lemma_put_at(rules: Seq<Row>, name: Seq<char>, body: Seq<char>, i: int)
    requires
        0 <= i <= rules.len(),
        forall|j: int| 0 <= j < i ==> (#[trigger] rules[j]).0 != name && !before(name, rules[j].0),
        i < rules.len() ==> rules[i].0 == name || before(name, rules[i].0),
    ensures
        put(rules, name, body) == if i < rules.len() && rules[i].0 == name {
            rules.update(i, (name, body))
        } else {
            rules.insert(i, (name, body))
        },
    decreases i,
{
    if i == 0 {
        if rules.len() == 0 {
            assert(rules.insert(0, (name, body)) =~= seq![(name, body)]);
        } else {
            assert(rules.insert(0, (name, body)) =~= seq![(name, body)] + rules);
        }
    } else {
        let rest = rules.drop_first();
        assert(rules[0].0 != name && !before(name, rules[0].0));
        assert forall|j: int| 0 <= j < i - 1 implies (#[trigger] rest[j]).0 != name && !before(name, rest[j].0) by {
            assert(rest[j] == rules[j + 1]);
        }
        lemma_put_at(rest, name, body, i - 1);
        if i < rules.len() && rules[i].0 == name {
            assert(seq![rules[0]] + rest.update(i - 1, (name, body)) =~= rules.update(i, (name, body)));
        } else {
            assert(seq![rules[0]] + rest.insert(i - 1, (name, body)) =~= rules.insert(i, (name, body)));
        }
    }
}

/// Writing a rule adds its name and no other.
pub proof fn lemma_put_names(rules: Seq<Row>, name: Seq<char>, body: Seq<char>, k: Seq<char>)
    ensures
        named_in(put(rules, name, body), k) == (named_in(rules, k) || k == name),
    decreases rules.len(),
{
    let p = put(rules, name, body);
    if rules.len() == 0 {
        assert(p[0].0 == name);
    } else if rules[0].0 == name {
        assert(p[0].0 == name);
        if named_in(rules, k) {
            let i = choose|i: int| 0 <= i < rules.len() && (#[trigger] rules[i]).0 == k;
            assert(p[i].0 == k);
        }
        if named_in(p, k) {
            let i = choose|i: int| 0 <= i < p.len() && (#[trigger] p[i]).0 == k;
            assert(rules[i].0 == k);
        }
    } else if before(name, rules[0].0) {
        assert(p[0].0 == name);
        if named_in(rules, k) {
            let i = choose|i: int| 0 <= i < rules.len() && (#[trigger] rules[i]).0 == k;
            assert(p[i + 1].0 == k);
        }
        if named_in(p, k) && k != name {
            let i = choose|i: int| 0 <= i < p.len() && (#[trigger] p[i]).0 == k;
            assert(rules[i - 1].0 == k);
        }
    } else {
        let rest = rules.drop_first();
        lemma_put_names(rest, name, body, k);
        let q = put(rest, name, body);
        assert(p[0] == rules[0]);
        if named_in(rules, k) {
            let i = choose|i: int| 0 <= i < rules.len() && (#[trigger] rules[i]).0 == k;
            if i > 0 {
                assert(rest[i - 1].0 == k);
            } else {
                assert(p[0].0 == k);
            }
        }
        if named_in(q, k) {
            let i = choose|i: int| 0 <= i < q.len() && (#[trigger] q[i]).0 == k;
            assert(p[i + 1].0 == k);
        }
        if named_in(p, k) {
            let i = choose|i: int| 0 <= i < p.len() && (#[trigger] p[i]).0 == k;
            if i > 0 {
                assert(q[i - 1].0 == k);
            } else {
                assert(rules[0].0 == k);
            }
        }
        if named_in(rest, k) {
            let i = choose|i: int| 0 <= i < rest.len() && (#[trigger] rest[i]).0 == k;
            assert(rules[i + 1].0 == k);
        }
    }
}

pub proof fn lemma_pending_less(names: Seq<Seq<char>>, a: Seq<Row>, b: Seq<Row>, n: nat)
    requires
        n <= names.len(),
        forall|k: Seq<char>| named_in(a, k) ==> #[trigger] named_in(b, k),
    ensures
        pending(names, b, n) <= pending(names, a, n),
        forall|i: int|
            #![trigger names[i]]
            0 <= i < n && named_in(b, ref_name(names[i])) && !named_in(a, ref_name(names[i])) ==> pending(
                names,
                b,
                n,
            ) < pending(names, a, n),
    decreases n,
{
    if n > 0 {
        lemma_pending_less(names, a, b, (n - 1) as nat);
        assert(named_in(a, ref_name(names[n - 1])) ==> named_in(b, ref_name(names[n - 1])));
    }
}

pub proof fn lemma_def_named(root: Json, name: Seq<char>) -> (i: int)
    requires
        def_of(root, name) is Some,
    ensures
        0 <= i < def_names(root).len(),
        def_names(root)[i] == name,
{
    let a = member(root, "$defs"@);
    let b = member(root, "definitions"@);
    if nested(root, "definitions"@, name) is Some {
        let o = b->0->Object_0;
        lemma_member_index(o@, name);
        let p = member_index(o@, name);
        assert(member_names(b)[p] == name);
        member_names(a).len() + p
    } else {
        let o = a->0->Object_0;
        lemma_member_index(o@, name);
        let p = member_index(o@, name);
        assert(member_names(a)[p] == name);
        p
    }
}

fn append_lit(out: &mut Vec<char>, text: &str)
    ensures
        final(out)@ == old(out)@ + lit_of(text@),
{
    let s = chars_of(text);
    out.push('"');
    let ghost start = out@;
    let mut i: usize = 0;
    assert(s@.take(0) =~= seq![]);
    while i < s.len()
        invariant
            i <= s@.len(),
            out@ =~= start + lit_chars(s@.take(i as int)),
        decreases s@.len() - i,
    {
        assert(s@.take(i + 1).drop_last() =~= s@.take(i as int));
        assert(s@.take(i + 1).last() == s@[i as int]);
        match s[i] {
            '"' => {
                push_text(out, "\\\"");
            },
            '\\' => {
                push_text(out, "\\\\");
            },
            '\n' => {
                push_text(out, "\\n");
            },
            c => {
                out.push(c);
            },
        }
        i = i + 1;
        assert(out@ =~= start + lit_chars(s@.take(i as int)));
    }
    assert(s@.take(i as int) =~= s@);
    out.push('"');
    assert(out@ =~= old(out)@ + lit_of(text@));
}

fn join(parts: &Vec<Vec<char>>, sep: &str) -> (r: Vec<char>)
    ensures
        r@ == joined(parts_of(parts@), sep@),
{
    let ghost ps = parts_of(parts@);
    let mut r: Vec<char> = Vec::new();
    let mut i: usize = 0;
    assert(ps.take(0) =~= seq![]);
    while i < parts.len()
        invariant
            i <= parts@.len(),
            ps == parts_of(parts@),
            r@ == joined(ps.take(i as int), sep@),
        decreases parts@.len() - i,
    {
        assert(ps.take(i + 1).drop_last() =~= ps.take(i as int));
        assert(ps.take(i + 1).last() == parts@[i as int]@);
        if i > 0 {
            push_text(&mut r, sep);
        }
        push_chars(&mut r, &parts[i]);
        i = i + 1;
        assert(r@ =~= joined(ps.take(i as int), sep@));
    }
    assert(ps.take(i as int) =~= ps);
    r
}

fn word(s: &str) -> (r: Vec<char>)
    ensures
        r@ == s@,
{
    chars_of(s)
}

fn pair(key: &str, symbol: &Vec<char>) -> (r: Vec<char>)
    ensures
        r@ == pair_text(key@, symbol@),
{
    let name = quoted(key);
    let mut r: Vec<char> = Vec::new();
    append_lit(&mut r, name.as_str());
    push_text(&mut r, " ws \":\" ws ");
    push_chars(&mut r, symbol);
    assert(r@ =~= pair_text(key@, symbol@));
    r
}

fn append_optional(out: &mut Vec<char>, pairs: &Vec<Vec<char>>, from: usize)
    requires
        from <= pairs@.len(),
    ensures
        final(out)@ == old(out)@ + optional_pairs(parts_of(pairs@).skip(from as int)),
{
    let ghost all = parts_of(pairs@).skip(from as int);
    let ghost start = out@;
    let mut i: usize = from;
    assert(all.take(0) =~= seq![]);
    while i < pairs.len()
        invariant
            from <= i <= pairs@.len(),
            all == parts_of(pairs@).skip(from as int),
            out@ =~= start + optional_pairs(all.take(i - from)),
        decreases pairs@.len() - i,
    {
        assert(all.take(i + 1 - from).drop_last() =~= all.take(i - from));
        assert(all.take(i + 1 - from).last() == pairs@[i as int]@);
        push_text(out, " ( ws \",\" ws ");
        push_chars(out, &pairs[i]);
        push_text(out, " )?");
        i = i + 1;
        assert(out@ =~= start + optional_pairs(all.take(i - from)));
    }
    assert(all.take(i - from) =~= all);
}

fn object_rule(req: &Vec<Vec<char>>, opt: &Vec<Vec<char>>) -> (r: Vec<char>)
    ensures
        r@ == object_body(parts_of(req@), parts_of(opt@)),
{
    let ghost q = parts_of(req@);
    let ghost o = parts_of(opt@);
    let mut r = chars_of("\"{\" ws ");
    let ghost start = r@;
    if req.len() > 0 {
        let head = join(req, " ws \",\" ws ");
        push_chars(&mut r, &head);
        append_optional(&mut r, opt, 0);
        assert(o.skip(0) =~= o);
    } else {
        push_text(&mut r, "( ");
        if opt.len() > 0 {
            push_chars(&mut r, &opt[0]);
            append_optional(&mut r, opt, 1);
            assert(o.skip(1) =~= o.drop_first());
        }
        push_text(&mut r, " )?");
    }
    assert(r@ =~= start + members_body(q, o));
    push_text(&mut r, " ws \"}\"");
    assert(r@ =~= object_body(q, o));
    r
}

fn list_rule(item: &Vec<char>) -> (r: Vec<char>)
    ensures
        r@ == list_body(item@),
{
    let mut r = chars_of("\"[\" ws ( ");
    push_chars(&mut r, item);
    push_text(&mut r, " ( ws \",\" ws ");
    push_chars(&mut r, item);
    push_text(&mut r, " )* )? ws \"]\"");
    r
}

fn name_part(r: &str) -> (name: Vec<char>)
    ensures
        name@ == last_part(r@),
{
    let s = chars_of(r);
    let mut i: usize = s.len();
    let ghost n = s@.len();
    proof {
        assert(s@.take(n as int) =~= s@);
        assert(last_part(s@) =~= last_part(s@) + s@.subrange(n as int, n as int));
    }
    while i > 0 && s[i - 1] != '/'
        invariant
            i <= n,
            n == s@.len(),
            last_part(s@) == last_part(s@.take(i as int)) + s@.subrange(i as int, n as int),
        decreases i,
    {
        assert(s@.take(i as int).drop_last() =~= s@.take(i - 1));
        assert(s@.subrange(i - 1, n as int) =~= seq![s@[i - 1]] + s@.subrange(i as int, n as int));
        assert(last_part(s@.take(i as int)) =~= last_part(s@.take(i - 1)) + seq![s@[i - 1]]);
        i = i - 1;
        assert(last_part(s@) =~= last_part(s@.take(i as int)) + s@.subrange(i as int, n as int));
    }
    proof {
        assert(last_part(s@.take(i as int)) =~= seq![]);
        assert(last_part(s@) =~= s@.subrange(i as int, n as int));
    }
    copy_chars(&s, i, s.len())
}

/// The name of the rule of a definition.
fn ref_key(name: &Vec<char>) -> (key: Vec<char>)
    ensures
        key@ == ref_name(name@),
{
    let mut key = chars_of("ref_");
    let ghost start = key@;
    let mut i: usize = 0;
    assert(name@.take(0) =~= seq![]);
    while i < name.len()
        invariant
            i <= name@.len(),
            key@ =~= start + ref_chars(name@.take(i as int)),
        decreases name@.len() - i,
    {
        let ghost before = key@;
        assert(name@.take(i + 1).drop_last() =~= name@.take(i as int));
        assert(name@.take(i + 1).last() == name@[i as int]);
        let c: char = name[i];
        if is_name_char(c) && c != '-' {
            key.push(c);
        } else {
            key.push('-');
            push_decimal(&mut key, c as u32 as usize);
            key.push('-');
        }
        assert(key@ =~= before + ref_char(c));
        i = i + 1;
    }
    assert(name@.take(i as int) =~= name@);
    key
}

fn has_text(a: &Vec<Json>, t: &str) -> (r: bool)
    ensures
        r == lists_text(a@, t@),
{
    let mut i: usize = 0;
    while i < a.len()
        invariant
            i <= a@.len(),
            forall|j: int| 0 <= j < i ==> !is_text(#[trigger] a@[j], t@),
        decreases a@.len() - i,
    {
        if let Json::Text(s) = &a[i] {
            if same_text(s.as_str(), t) {
                assert(is_text(a@[i as int], t@));
                return true;
            }
        }
        i = i + 1;
    }
    false
}

fn required(s: &Json, key: &str) -> (r: bool)
    ensures
        r == is_required(*s, key@),
{
    match get_list(s, "required") {
        Some(a) => has_text(a, key),
        None => false,
    }
}

fn nested_member<'a>(v: &'a Json, key: &str, name: &str) -> (r: Option<&'a Json>)
    ensures
        match r {
            Some(x) => nested(*v, key@, name@) == Some(*x),
            None => nested(*v, key@, name@) is None,
        },
{
    match v.get(key) {
        Some(x) => x.get(name),
        None => None,
    }
}

fn definition<'a>(root: &'a Json, name: &str) -> (r: Option<&'a Json>)
    ensures
        match r {
            Some(x) => def_of(*root, name@) == Some(*x),
            None => def_of(*root, name@) is None,
        },
{
    match nested_member(root, "definitions", name) {
        Some(x) => Some(x),
        None => nested_member(root, "$defs", name),
    }
}

struct Ctx<'a> {
    root: &'a Json,
    rules: Vec<(Vec<char>, Vec<char>)>,
    n: usize,
}

impl<'a> Ctx<'a> {
    spec fn sketch(&self) -> Sketch {
        Sketch { rules: rows_of(self.rules@), n: self.n }
    }

    spec fn left(&self) -> nat {
        pending(def_names(*self.root), rows_of(self.rules@), def_names(*self.root).len())
    }

    fn insert(&mut self, name: Vec<char>, body: Vec<char>)
        ensures
            final(self).root == old(self).root,
            final(self).sketch() == (Sketch {
                rules: put(old(self).sketch().rules, name@, body@),
                ..old(self).sketch()
            }),
            final(self).left() <= old(self).left(),
            forall|i: int|
                #![trigger def_names(*old(self).root)[i]]
                0 <= i < def_names(*old(self).root).len() && ref_name(def_names(*old(self).root)[i]) == name@
                    && !named_in(old(self).sketch().rules, name@) ==> final(self).left() < old(self).left(),
    {
        let ghost rs = rows_of(self.rules@);
        let ghost key = name@;
        let ghost text = body@;
        let mut i: usize = 0;
        proof {
            assert forall|k: Seq<char>| named_in(rs, k) implies #[trigger] named_in(put(rs, key, text), k) by {
                lemma_put_names(rs, key, text, k);
            }
            lemma_put_names(rs, key, text, key);
            lemma_pending_less(
                def_names(*self.root),
                rs,
                put(rs, key, text),
                def_names(*self.root).len(),
            );
        }
        while i < self.rules.len()
            invariant
                i <= self.rules@.len(),
                rs == rows_of(self.rules@),
                key == name@,
                forall|j: int| 0 <= j < i ==> (#[trigger] rs[j]).0 != key && !before(key, rs[j].0),
            ensures
                i <= self.rules@.len(),
                rs == rows_of(self.rules@),
                forall|j: int| 0 <= j < i ==> (#[trigger] rs[j]).0 != key && !before(key, rs[j].0),
                i < self.rules@.len() ==> rs[i as int].0 == key || before(key, rs[i as int].0),
            decreases self.rules@.len() - i,
        {
            assert(rs[i as int].0 == self.rules@[i as int].0@);
            if same_chars(&self.rules[i].0, &name) || comes_before(&name, &self.rules[i].0) {
                break;
            }
            i = i + 1;
        }
        proof {
            lemma_put_at(rs, key, text, i as int);
        }
        if i < self.rules.len() && same_chars(&self.rules[i].0, &name) {
            self.rules.set(i, (name, body));
            assert(rows_of(self.rules@) =~= rs.update(i as int, (key, text)));
        } else {
            self.rules.insert(i, (name, body));
            assert(rows_of(self.rules@) =~= rs.insert(i as int, (key, text)));
        }
    }

    fn has_rule(&self, name: &Vec<char>) -> (r: bool)
        ensures
            r == named_in(self.sketch().rules, name@),
    {
        let ghost rs = rows_of(self.rules@);
        let mut i: usize = 0;
        while i < self.rules.len()
            invariant
                i <= self.rules@.len(),
                rs == rows_of(self.rules@),
                forall|j: int| 0 <= j < i ==> (#[trigger] rs[j]).0 != name@,
            decreases self.rules@.len() - i,
        {
            assert(rs[i as int].0 == self.rules@[i as int].0@);
            if same_chars(&self.rules[i].0, name) {
                return true;
            }
            i = i + 1;
        }
        false
    }

    fn fresh(&mut self, body: Vec<char>) -> (r: Vec<char>)
        ensures
            final(self).root == old(self).root,
            (final(self).sketch(), r@) == fresh(old(self).sketch(), body@),
            final(self).left() <= old(self).left(),
    {
        let n: usize = self.n.wrapping_add(1);
        self.n = n;
        let mut name: Vec<char> = Vec::new();
        name.push('n');
        push_decimal(&mut name, n);
        assert(name@ =~= seq!['n'] + decimal(n as nat));
        let r = copy_chars(&name, 0, name.len());
        assert(r@ =~= name@);
        self.insert(name, body);
        r
    }

    fn alternatives(&mut self, vs: &Vec<Json>, Ghost(depth): Ghost<nat>) -> (r: Vec<char>)
        requires
            old(self).left() <= depth,
        ensures
            final(self).root == old(self).root,
            final(self).left() <= old(self).left(),
            ({
                let (c, alts) = nodes(*old(self).root, depth, old(self).sketch(), vs@, vs@.len());
                (final(self).sketch(), r@) == fresh(c, joined(alts, " | "@))
            }),
        decreases depth, vs@, 1nat,
    {
        let ghost c0 = self.sketch();
        let mut parts: Vec<Vec<char>> = Vec::new();
        let mut i: usize = 0;
        assert(parts_of(parts@) =~= seq![]);
        while i < vs.len()
            invariant
                i <= vs@.len(),
                self.root == old(self).root,
                self.left() <= old(self).left(),
                old(self).left() <= depth,
                (self.sketch(), parts_of(parts@)) == nodes(*old(self).root, depth, c0, vs@, i as nat),
            decreases vs@.len() - i,
        {
            let ghost ps = parts_of(parts@);
            assert(decreases_to!(vs@ => vs@[i as int]));
            let x = self.node(&vs[i], Ghost(depth));
            parts.push(x);
            assert(parts_of(parts@) =~= ps.push(x@));
            i = i + 1;
        }
        let body = join(&parts, " | ");
        self.fresh(body)
    }

    fn properties(&mut self, s: &Json, o: &Vec<(String, Json)>, Ghost(depth): Ghost<nat>) -> (r: Vec<char>)
        requires
            old(self).left() <= depth,
        ensures
            final(self).root == old(self).root,
            final(self).left() <= old(self).left(),
            ({
                let (c, req, opt) = members(*old(self).root, depth, old(self).sketch(), *s, o@, o@.len());
                (final(self).sketch(), r@) == fresh(c, object_body(req, opt))
            }),
        decreases depth, o@, 1nat,
    {
        let ghost c0 = self.sketch();
        let mut req: Vec<Vec<char>> = Vec::new();
        let mut opt: Vec<Vec<char>> = Vec::new();
        let mut i: usize = 0;
        assert(parts_of(req@) =~= seq![]);
        assert(parts_of(opt@) =~= seq![]);
        while i < o.len()
            invariant
                i <= o@.len(),
                self.root == old(self).root,
                self.left() <= old(self).left(),
                old(self).left() <= depth,
                (self.sketch(), parts_of(req@), parts_of(opt@)) == members(
                    *old(self).root,
                    depth,
                    c0,
                    *s,
                    o@,
                    i as nat,
                ),
            decreases o@.len() - i,
        {
            let ghost q = parts_of(req@);
            let ghost p = parts_of(opt@);
            assert(decreases_to!(o@ => o@[i as int]));
            assert(decreases_to!(o@[i as int] => o@[i as int].1));
            let x = self.node(&o[i].1, Ghost(depth));
            let t = pair(o[i].0.as_str(), &x);
            if required(s, o[i].0.as_str()) {
                req.push(t);
                assert(parts_of(req@) =~= q.push(t@));
            } else {
                opt.push(t);
                assert(parts_of(opt@) =~= p.push(t@));
            }
            i = i + 1;
        }
        let body = object_rule(&req, &opt);
        self.fresh(body)
    }

    /// A grammar symbol that matches a schema node.
    fn node(&mut self, s: &Json, Ghost(depth): Ghost<nat>) -> (r: Vec<char>)
        requires
            old(self).left() <= depth,
        ensures
            final(self).root == old(self).root,
            final(self).left() <= old(self).left(),
            (final(self).sketch(), r@) == node(*old(self).root, depth, old(self).sketch(), *s),
        decreases depth, *s, 2nat,
    {
        proof {
            lemma_member_smaller(*s, "anyOf"@);
            lemma_member_smaller(*s, "oneOf"@);
            lemma_member_smaller(*s, "items"@);
            lemma_member_smaller(*s, "properties"@);
        }
        let root = self.root;
        if let Some(r) = get_str(s, "$ref") {
            let name = name_part(r);
            let name_text = string_of(&name);
            match definition(root, name_text.as_str()) {
                Some(def) => {
                    let key = ref_key(&name);
                    if !self.has_rule(&key) {
                        let ghost i = lemma_def_named(*root, name@);
                        proof {
                            assert(def_names(*root)[i] == name@);
                            lemma_put_names(self.sketch().rules, key@, "value"@, key@);
                        }
                        let k1 = copy_chars(&key, 0, key.len());
                        assert(k1@ =~= key@);
                        self.insert(k1, word("value"));
                        assert(depth > 0);
                        let body = self.node(def, Ghost((depth - 1) as nat));
                        let k2 = copy_chars(&key, 0, key.len());
                        assert(k2@ =~= key@);
                        self.insert(k2, body);
                    }
                    return key;
                },
                None => {
                    return word("value");
                },
            }
        }
        if let Some(v) = s.get("const") {
            let mut body: Vec<char> = Vec::new();
            let text = to_text(v);
            append_lit(&mut body, text.as_str());
            assert(body@ =~= lit_text(*v));
            return self.fresh(body);
        }
        if let Some(vs) = get_list(s, "enum") {
            let mut parts: Vec<Vec<char>> = Vec::new();
            let mut i: usize = 0;
            while i < vs.len()
                invariant
                    i <= vs@.len(),
                    parts@.len() == i,
                    forall|j: int| 0 <= j < i ==> (#[trigger] parts@[j])@ == lit_text(vs@[j]),
                decreases vs@.len() - i,
            {
                let mut body: Vec<char> = Vec::new();
                let text = to_text(&vs[i]);
                append_lit(&mut body, text.as_str());
                assert(body@ =~= lit_text(vs@[i as int]));
                parts.push(body);
                i = i + 1;
            }
            assert(parts_of(parts@) =~= lits(vs@));
            let body = join(&parts, " | ");
            return self.fresh(body);
        }
        if let Some(vs) = get_list(s, "anyOf") {
            return self.alternatives(vs, Ghost(depth));
        }
        if let Some(vs) = get_list(s, "oneOf") {
            return self.alternatives(vs, Ghost(depth));
        }
        match get_str(s, "type") {
            Some(t) => {
                if same_text(t, "string") || same_text(t, "integer") || same_text(t, "number") || same_text(
                    t,
                    "boolean",
                ) || same_text(t, "null") {
                    word(t)
                } else if same_text(t, "array") {
                    let item = match s.get("items") {
                        Some(it) => self.node(it, Ghost(depth)),
                        None => word("value"),
                    };
                    let body = list_rule(&item);
                    self.fresh(body)
                } else if same_text(t, "object") {
                    match s.get("properties") {
                        Some(Json::Object(o)) => {
                            if o.len() == 0 {
                                word("object")
                            } else {
                                self.properties(s, o, Ghost(depth))
                            }
                        },
                        _ => word("object"),
                    }
                } else {
                    word("value")
                }
            },
            None => word("value"),
        }
    }
}

proof fn lemma_rules_push(rules: Seq<Row>, r: Row)
    ensures
        rules_text(rules.push(r)) == rules_text(rules) + rule_line(r),
{
    assert(rules.push(r).drop_last() =~= rules);
}

fn push_rule(out: &mut Vec<char>, name: &str, body: &Vec<char>)
    ensures
        final(out)@ == old(out)@ + rule_line((name@, body@)),
{
    push_text(out, name);
    push_text(out, " ::= ");
    push_chars(out, body);
    push_text(out, "\n");
    assert(out@ =~= old(out)@ + rule_line((name@, body@)));
}

/// One more of the first rules, behind those that are written.
fn push_basic(out: &mut Vec<char>, name: &str, body: &str, Ghost(start): Ghost<Seq<char>>, Ghost(rules): Ghost<Seq<Row>>)
    requires
        old(out)@ == start + rules_text(rules),
    ensures
        final(out)@ == start + rules_text(rules.push((name@, body@))),
{
    push_rule(out, name, &word(body));
    proof {
        lemma_rules_push(rules, (name@, body@));
        assert(out@ =~= start + rules_text(rules.push((name@, body@))));
    }
}

fn push_prelude(out: &mut Vec<char>)
    ensures
        final(out)@ == old(out)@ + rules_text(prelude()),
{
    let ghost start = out@;
    let ghost r0 = Seq::<Row>::empty();
    assert(out@ =~= start + rules_text(r0));
    push_basic(out, "ws", WS_RULE, Ghost(start), Ghost(r0));
    let ghost r1 = r0.push(("ws"@, WS_RULE@));
    push_basic(out, "string", STRING_RULE, Ghost(start), Ghost(r1));
    let ghost r2 = r1.push(("string"@, STRING_RULE@));
    push_basic(out, "integer", INTEGER_RULE, Ghost(start), Ghost(r2));
    let ghost r3 = r2.push(("integer"@, INTEGER_RULE@));
    push_basic(out, "number", NUMBER_RULE, Ghost(start), Ghost(r3));
    let ghost r4 = r3.push(("number"@, NUMBER_RULE@));
    push_basic(out, "boolean", BOOLEAN_RULE, Ghost(start), Ghost(r4));
    let ghost r5 = r4.push(("boolean"@, BOOLEAN_RULE@));
    push_basic(out, "null", NULL_RULE, Ghost(start), Ghost(r5));
    let ghost r6 = r5.push(("null"@, NULL_RULE@));
    push_basic(out, "value", VALUE_RULE, Ghost(start), Ghost(r6));
    let ghost r7 = r6.push(("value"@, VALUE_RULE@));
    push_basic(out, "object", OBJECT_RULE, Ghost(start), Ghost(r7));
    let ghost r8 = r7.push(("object"@, OBJECT_RULE@));
    push_basic(out, "array", ARRAY_RULE, Ghost(start), Ghost(r8));
    let ghost r9 = r8.push(("array"@, ARRAY_RULE@));
    assert(r9 =~= prelude());
}

/// The grammar of a schema. Every schema has one.
pub fn compile(schema: &Json) -> (r: Result<Grammar, String>)
    ensures
        match r {
            Ok(g) => grammar_of(schema_text(*schema)) == Ok::<(Seq<Seq<Elem>>, int), GrammarError>(
                (g.model(), g.root as int),
            ),
            Err(_) => false,
        },
        schema_text(*schema).len() <= usize::MAX,
{
    let mut c = Ctx { root: schema, rules: Vec::new(), n: 0 };
    proof {
        assert(c.sketch() =~= (Sketch { rules: seq![], n: 0 }));
        lemma_pending_bound(def_names(*schema), rows_of(c.rules@), def_names(*schema).len());
    }
    let root = c.node(schema, Ghost(def_names(*schema).len()));
    let mut out: Vec<char> = Vec::new();
    push_prelude(&mut out);
    push_rule(&mut out, "root", &root);
    let ghost base = prelude().push(("root"@, root@));
    let ghost rs = rows_of(c.rules@);
    let mut i: usize = 0;
    proof {
        lemma_rules_push(prelude(), ("root"@, root@));
        assert(base + rs.take(0) =~= base);
    }
    while i < c.rules.len()
        invariant
            i <= c.rules@.len(),
            rs == rows_of(c.rules@),
            out@ == rules_text(base + rs.take(i as int)),
        decreases c.rules@.len() - i,
    {
        push_chars(&mut out, &c.rules[i].0);
        push_text(&mut out, " ::= ");
        push_chars(&mut out, &c.rules[i].1);
        push_text(&mut out, "\n");
        proof {
            lemma_rules_push(base + rs.take(i as int), rs[i as int]);
            assert((base + rs.take(i as int)).push(rs[i as int]) =~= base + rs.take(i + 1));
            assert(out@ =~= rules_text(base + rs.take(i as int)) + rule_line(rs[i as int]));
        }
        i = i + 1;
    }
    assert(rs.take(i as int) =~= rs);
    assert(out@ =~= schema_text(*schema));
    assert(out@.len() == out.len());
    proof {
        schemas_compile(*schema);
    }
    let text = string_of(&out);
    parse(text.as_str())
}

/// The grammar of any JSON object.
pub fn any_json() -> (r: Result<Grammar, String>)
    ensures
        match r {
            Ok(g) => grammar_of(any_text()) == Ok::<(Seq<Seq<Elem>>, int), GrammarError>(
                (g.model(), g.root as int),
            ),
            Err(_) => false,
        },
{
    let mut out: Vec<char> = Vec::new();
    push_prelude(&mut out);
    push_rule(&mut out, "root", &word("object"));
    proof {
        lemma_rules_push(prelude(), ("root"@, "object"@));
        any_object_is_sound();
    }
    let text = string_of(&out);
    parse(text.as_str())
}

pub proof fn lemma_pending_bound(names: Seq<Seq<char>>, rules: Seq<Row>, n: nat)
    ensures
        pending(names, rules, n) <= n,
    decreases n,
{
    if n > 0 {
        lemma_pending_bound(names, rules, (n - 1) as nat);
    }
}

/// Whether rules stand in the order of their names, each name once.
pub open spec fn ordered(rules: Seq<Row>) -> bool {
    forall|i: int, j: int| 0 <= i < j < rules.len() ==> before((#[trigger] rules[i]).0, (#[trigger] rules[j]).0)
}

proof fn lemma_before_trans(a: Seq<char>, b: Seq<char>, c: Seq<char>)
    requires
        before(a, b),
        before(b, c),
    ensures
        before(a, c),
    decreases a.len(),
{
    if a.len() > 0 && a[0] == b[0] && b[0] == c[0] {
        lemma_before_trans(a.drop_first(), b.drop_first(), c.drop_first());
    }
}

/// Characters that differ have codes that differ.
pub proof fn lemma_codes_differ(a: char, b: char)
    requires
        a != b,
    ensures
        a as u32 != b as u32,
{
}

proof fn lemma_before_total(a: Seq<char>, b: Seq<char>)
    requires
        a != b,
    ensures
        before(a, b) || before(b, a),
    decreases a.len(),
{
    if a.len() > 0 && b.len() > 0 && a[0] == b[0] {
        if a.drop_first() =~= b.drop_first() {
            assert(a =~= seq![a[0]] + a.drop_first());
            assert(b =~= seq![b[0]] + b.drop_first());
        } else {
            lemma_before_total(a.drop_first(), b.drop_first());
        }
    } else if a.len() == 0 && b.len() == 0 {
        assert(a =~= b);
    } else if a.len() > 0 && b.len() > 0 {
        lemma_codes_differ(a[0], b[0]);
    }
}

/// Writing a rule keeps the rules in the order of their names.
pub proof fn writing_keeps_order(rules: Seq<Row>, name: Seq<char>, body: Seq<char>)
    requires
        ordered(rules),
    ensures
        ordered(put(rules, name, body)),
    decreases rules.len(),
{
    let p = put(rules, name, body);
    if rules.len() == 0 {
    } else if rules[0].0 == name {
        assert forall|i: int, j: int| 0 <= i < j < p.len() implies before((#[trigger] p[i]).0, (#[trigger] p[j]).0) by {
            assert(p[i].0 == rules[i].0 && p[j].0 == rules[j].0);
        }
    } else if before(name, rules[0].0) {
        assert forall|i: int, j: int| 0 <= i < j < p.len() implies before((#[trigger] p[i]).0, (#[trigger] p[j]).0) by {
            assert(p[j] == rules[j - 1]);
            if i > 0 {
                assert(p[i] == rules[i - 1]);
            } else if j > 1 {
                assert(before(rules[0].0, rules[j - 1].0));
                lemma_before_trans(name, rules[0].0, rules[j - 1].0);
            }
        }
    } else {
        let rest = rules.drop_first();
        assert forall|i: int, j: int| 0 <= i < j < rest.len() implies before(
            (#[trigger] rest[i]).0,
            (#[trigger] rest[j]).0,
        ) by {
            assert(rest[i] == rules[i + 1] && rest[j] == rules[j + 1]);
        }
        writing_keeps_order(rest, name, body);
        let q = put(rest, name, body);
        lemma_before_total(rules[0].0, name);
        assert forall|i: int, j: int| 0 <= i < j < p.len() implies before((#[trigger] p[i]).0, (#[trigger] p[j]).0) by {
            assert(p[j] == q[j - 1]);
            if i > 0 {
                assert(p[i] == q[i - 1]);
            } else {
                let k = q[j - 1].0;
                assert(named_in(q, k));
                lemma_put_names(rest, name, body, k);
                if k != name {
                    let m = choose|m: int| 0 <= m < rest.len() && (#[trigger] rest[m]).0 == k;
                    assert(rest[m] == rules[m + 1]);
                }
            }
        }
    }
}

/// The rules of a schema stand in the order of their names.
pub proof fn schema_rules_are_ordered(schema: Json)
    ensures
        ordered(sketch_of(schema).0.rules),
{
    lemma_node_ordered(schema, def_names(schema).len(), Sketch { rules: seq![], n: 0 }, schema);
}

proof fn lemma_node_ordered(root: Json, depth: nat, c: Sketch, s: Json)
    requires
        ordered(c.rules),
    ensures
        ordered(node(root, depth, c, s).0.rules),
    decreases depth, s, 0nat,
{
    lemma_member_smaller(s, "anyOf"@);
    lemma_member_smaller(s, "oneOf"@);
    lemma_member_smaller(s, "items"@);
    lemma_member_smaller(s, "properties"@);
    assert forall|d: Sketch, body: Seq<char>| ordered(d.rules) implies ordered(
        (#[trigger] fresh(d, body)).0.rules,
    ) by {
        writing_keeps_order(d.rules, seq!['n'] + decimal(d.n.wrapping_add(1) as nat), body);
    }
    match text_at(s, "$ref"@) {
        Some(r) => {
            let key = ref_name(last_part(r));
            match def_of(root, last_part(r)) {
                Some(def) => if !named_in(c.rules, key) && depth > 0 {
                    let open = Sketch { rules: put(c.rules, key, "value"@), ..c };
                    writing_keeps_order(c.rules, key, "value"@);
                    lemma_node_ordered(root, (depth - 1) as nat, open, def);
                    let (d, body) = node(root, (depth - 1) as nat, open, def);
                    writing_keeps_order(d.rules, key, body);
                },
                None => {},
            }
        },
        None => {
            match member(s, "anyOf"@) {
                Some(Json::List(vs)) => {
                    lemma_nodes_ordered(root, depth, c, vs@, vs@.len());
                },
                _ => {},
            }
            match member(s, "oneOf"@) {
                Some(Json::List(vs)) => {
                    lemma_nodes_ordered(root, depth, c, vs@, vs@.len());
                },
                _ => {},
            }
            match member(s, "items"@) {
                Some(it) => {
                    lemma_node_ordered(root, depth, c, it);
                },
                None => {},
            }
            match member(s, "properties"@) {
                Some(Json::Object(o)) => {
                    lemma_members_ordered(root, depth, c, s, o@, o@.len());
                },
                _ => {},
            }
        },
    }
}

proof fn lemma_nodes_ordered(root: Json, depth: nat, c: Sketch, vs: Seq<Json>, n: nat)
    requires
        ordered(c.rules),
    ensures
        ordered(nodes(root, depth, c, vs, n).0.rules),
    decreases depth, vs, n,
{
    if 0 < n <= vs.len() {
        lemma_nodes_ordered(root, depth, c, vs, (n - 1) as nat);
        lemma_node_ordered(root, depth, nodes(root, depth, c, vs, (n - 1) as nat).0, vs[n - 1]);
    }
}

proof fn lemma_members_ordered(root: Json, depth: nat, c: Sketch, s: Json, o: Seq<(String, Json)>, n: nat)
    requires
        ordered(c.rules),
    ensures
        ordered(members(root, depth, c, s, o, n).0.rules),
    decreases depth, o, n,
{
    if 0 < n <= o.len() {
        assert(decreases_to!(o => o[n - 1]));
        assert(decreases_to!(o[n - 1] => o[n - 1].1));
        lemma_members_ordered(root, depth, c, s, o, (n - 1) as nat);
        lemma_node_ordered(root, depth, members(root, depth, c, s, o, (n - 1) as nat).0, o[n - 1].1);
    }
}

/// The elements that match a text.
pub open spec fn chars_elems(s: Seq<char>) -> Seq<Elem> {
    Seq::new(s.len(), |i: int| Elem::Char(s[i] as u32))
}

/// The literal of a text, read as a grammar, matches exactly the text.
pub proof fn literals_match_their_text(t: Seq<char>)
    ensures
        literal(lit_of(t), 1, seq![]) == Ok::<(Seq<Elem>, int), GrammarError>((chars_elems(t), lit_of(t).len() as int)),
{
    assert(lit_of(t).subrange(0, lit_of(t).len() as int) =~= lit_of(t));
    lemma_literal_at(lit_of(t), 0, t);
}

pub proof fn lemma_lit_chars_split(t: Seq<char>, k: int)
    requires
        0 <= k <= t.len(),
    ensures
        lit_chars(t) == lit_chars(t.take(k)) + lit_chars(t.skip(k)),
    decreases t.len() - k,
{
    if k == t.len() {
        assert(t.take(k) =~= t);
        assert(t.skip(k) =~= seq![]);
        assert(lit_chars(t) =~= lit_chars(t) + lit_chars(t.skip(k)));
    } else {
        lemma_lit_chars_split(t.drop_last(), k);
        assert(t.drop_last().take(k) =~= t.take(k));
        assert(t.skip(k).drop_last() =~= t.drop_last().skip(k));
        assert(t.skip(k).last() == t.last());
        assert(lit_chars(t) =~= lit_chars(t.take(k)) + lit_chars(t.skip(k)));
    }
}

/// A character inside a literal is read as itself.
pub proof fn lemma_lit_char_read(s: Seq<char>, p: int, c: char)
    requires
        0 <= p,
        p + lit_char(c).len() <= s.len(),
        s.subrange(p, p + lit_char(c).len()) == lit_char(c),
    ensures
        1 <= lit_char(c).len() <= 2,
        s[p] != '"',
        s[p] != '\n',
        lit_char(c).len() == 2 ==> s[p] == '\\' && s[p + 1] != '\n',
        lit_char(c).len() == 1 ==> s[p] == c && c != '\\',
        escaped(s, p) == Ok::<(u32, int), GrammarError>((c as u32, p + lit_char(c).len())),
{
    reveal_strlit("\\\"");
    reveal_strlit("\\\\");
    reveal_strlit("\\n");
    let w = s.subrange(p, p + lit_char(c).len());
    assert(s[p] == w[0]);
    if c == '"' || c == '\\' || c == '\n' {
        assert(s[p + 1] == w[1]);
    }
}

/// The text inside a literal is read from any place on, up to the quote.
proof fn lemma_literal_from(s: Seq<char>, t: Seq<char>, k: int, pre: int, out: Seq<Elem>)
    requires
        0 <= k <= t.len(),
        0 <= pre,
        pre + lit_chars(t).len() < s.len(),
        s.subrange(pre, pre + lit_chars(t).len()) == lit_chars(t),
        s[(pre + lit_chars(t).len()) as int] == '"',
        out == chars_elems(t.take(k)),
    ensures
        literal(s, (pre + lit_chars(t.take(k)).len()) as int, out) == Ok::<(Seq<Elem>, int), GrammarError>(
            (chars_elems(t), pre + lit_chars(t).len() + 1),
        ),
    decreases t.len() - k,
{
    let p = pre + lit_chars(t.take(k)).len();
    lemma_lit_chars_split(t, k);
    if k == t.len() {
        assert(t.take(k) =~= t);
    } else {
        let c = t[k];
        let w = lit_char(c);
        assert(t.take(k + 1).drop_last() =~= t.take(k));
        assert(t.take(k + 1).last() == c);
        lemma_lit_chars_split(t, k + 1);
        assert(lit_chars(t.take(k + 1)) == lit_chars(t.take(k)) + w);
        let all = s.subrange(pre, pre + lit_chars(t).len());
        assert(s.subrange(p, p + w.len()) =~= w) by {
            assert forall|i: int| 0 <= i < w.len() implies s[p + i] == #[trigger] w[i] by {
                assert(all[p - pre + i] == s[p + i]);
            }
        }
        lemma_lit_char_read(s, p, c);
        assert(chars_elems(t.take(k + 1)) =~= out.push(Elem::Char(c as u32)));
        lemma_literal_from(s, t, k + 1, pre, out.push(Elem::Char(c as u32)));
    }
}

/// The literal of a text, read from where it stands, matches exactly the text.
pub proof fn lemma_literal_at(s: Seq<char>, p: int, t: Seq<char>)
    requires
        0 <= p,
        p + lit_of(t).len() <= s.len(),
        s.subrange(p, p + lit_of(t).len()) == lit_of(t),
    ensures
        s[p] == '"',
        literal(s, p + 1, seq![]) == Ok::<(Seq<Elem>, int), GrammarError>((chars_elems(t), p + lit_of(t).len())),
{
    let w = s.subrange(p, p + lit_of(t).len());
    let n = lit_chars(t).len() as int;
    assert(w[0] == '"' && w[n + 1] == '"');
    assert(s.subrange(p + 1, p + 1 + n) =~= lit_chars(t)) by {
        assert forall|i: int| 0 <= i < n implies s[p + 1 + i] == #[trigger] lit_chars(t)[i] by {
            assert(w[1 + i] == lit_chars(t)[i]);
        }
    }
    assert(chars_elems(t.take(0)) =~= seq![]);
    assert(lit_chars(t.take(0)) =~= seq![]);
    lemma_literal_from(s, t, 0, p + 1, seq![]);
}

/// A decimal numeral is made of digits.
pub proof fn lemma_decimal_digits(n: nat)
    ensures
        decimal(n).len() > 0,
        forall|i: int| 0 <= i < decimal(n).len() ==> '0' <= #[trigger] decimal(n)[i] <= '9',
    decreases n,
{
    if n >= 10 {
        lemma_decimal_digits(n / 10);
    }
}

pub proof fn lemma_decimal_differs(a: nat, b: nat)
    requires
        decimal(a) == decimal(b),
    ensures
        a == b,
    decreases a,
{
    lemma_decimal_digits(a / 10);
    lemma_decimal_digits(b / 10);
    if a < 10 && b < 10 {
        assert(decimal(a)[0] == digit(a));
        assert(decimal(b)[0] == digit(b));
    } else if a < 10 {
        assert(decimal(b).len() == decimal(b / 10).len() + 1);
    } else if b < 10 {
        assert(decimal(a).len() == decimal(a / 10).len() + 1);
    } else {
        let x = decimal(a / 10);
        let y = decimal(b / 10);
        assert(decimal(a).drop_last() =~= x);
        assert(decimal(b).drop_last() =~= y);
        assert(decimal(a).last() == digit(a % 10));
        assert(decimal(b).last() == digit(b % 10));
        lemma_decimal_differs(a / 10, b / 10);
    }
}

proof fn lemma_ref_char(c: char)
    ensures
        ref_char(c).len() > 0,
        (ref_char(c).last() == '-') == !(name_char(c) && c != '-'),
        forall|i: int| 0 <= i < ref_char(c).len() ==> name_char(#[trigger] ref_char(c)[i]),
{
    lemma_decimal_digits(c as u32 as nat);
    if !(name_char(c) && c != '-') {
        let d = decimal(c as u32 as nat);
        assert forall|i: int| 0 <= i < ref_char(c).len() implies name_char(#[trigger] ref_char(c)[i]) by {
            if 0 < i < ref_char(c).len() - 1 {
                assert(ref_char(c)[i] == d[i - 1]);
            }
        }
    }
}

/// The name of a definition's rule is one that a grammar can have, whatever the definition is
/// called.
pub proof fn definitions_have_rule_names(name: Seq<char>)
    ensures
        forall|i: int| 0 <= i < ref_name(name).len() ==> name_char(#[trigger] ref_name(name)[i]),
    decreases name.len(),
{
    reveal_strlit("ref_");
    if name.len() > 0 {
        let rest = ref_name(name.drop_last());
        definitions_have_rule_names(name.drop_last());
        lemma_ref_char(name.last());
        assert(ref_name(name) =~= rest + ref_char(name.last()));
        assert forall|i: int| 0 <= i < ref_name(name).len() implies name_char(#[trigger] ref_name(name)[i]) by {
            if i < rest.len() {
                assert(name_char(rest[i]));
            } else {
                assert(name_char(ref_char(name.last())[i - rest.len()]));
            }
        }
    }
}

proof fn lemma_ref_chars_differ(a: Seq<char>, b: Seq<char>)
    requires
        ref_chars(a) == ref_chars(b),
    ensures
        a == b,
    decreases a.len(),
{
    let x = ref_chars(a);
    if a.len() == 0 || b.len() == 0 {
        if a.len() > 0 {
            lemma_ref_char(a.last());
        }
        if b.len() > 0 {
            lemma_ref_char(b.last());
        }
        assert(a =~= b);
    } else {
        let c = a.last();
        let d = b.last();
        let u = ref_chars(a.drop_last());
        let v = ref_chars(b.drop_last());
        lemma_ref_char(c);
        lemma_ref_char(d);
        assert(x == u + ref_char(c));
        assert(x == v + ref_char(d));
        assert(x.last() == ref_char(c).last());
        assert(x.last() == ref_char(d).last());
        if x.last() == '-' {
            let m = decimal(c as u32 as nat);
            let n = decimal(d as u32 as nat);
            lemma_decimal_digits(c as u32 as nat);
            lemma_decimal_digits(d as u32 as nat);
            let e = x.len() - 1;
            assert forall|i: int| 0 <= i < m.len() implies x[e - m.len() + i] == #[trigger] m[i] by {
                assert(ref_char(c)[1 + i] == m[i]);
            }
            assert forall|i: int| 0 <= i < n.len() implies x[e - n.len() + i] == #[trigger] n[i] by {
                assert(ref_char(d)[1 + i] == n[i]);
            }
            assert(x[e - m.len() - 1] == ref_char(c)[0]);
            assert(x[e - n.len() - 1] == ref_char(d)[0]);
            if m.len() < n.len() {
                assert(x[e - n.len() + (n.len() - m.len() - 1)] == n[n.len() - m.len() - 1]);
            }
            if n.len() < m.len() {
                assert(x[e - m.len() + (m.len() - n.len() - 1)] == m[m.len() - n.len() - 1]);
            }
            assert(m =~= n) by {
                assert forall|i: int| 0 <= i < m.len() implies m[i] == n[i] by {
                    assert(x[e - m.len() + i] == m[i]);
                    assert(x[e - n.len() + i] == n[i]);
                }
            }
            lemma_decimal_differs(c as u32 as nat, d as u32 as nat);
            if c != d {
                lemma_codes_differ(c, d);
            }
        }
        assert(c == d);
        assert(u =~= x.take(x.len() - ref_char(c).len()));
        assert(v =~= x.take(x.len() - ref_char(c).len()));
        lemma_ref_chars_differ(a.drop_last(), b.drop_last());
        assert(a =~= a.drop_last().push(c));
        assert(b =~= b.drop_last().push(d));
    }
}

/// Definitions that are called differently have different rules.
pub proof fn definitions_have_their_own_rules(a: Seq<char>, b: Seq<char>)
    requires
        ref_name(a) == ref_name(b),
    ensures
        a == b,
{
    reveal_strlit("ref_");
    assert(ref_chars(a) =~= ref_name(a).skip(4));
    assert(ref_chars(b) =~= ref_name(b).skip(4));
    lemma_ref_chars_differ(a, b);
}

} // verus!
