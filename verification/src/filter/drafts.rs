//! What compiling one rule does to the others.
use vstd::prelude::*;
use crate::filter::automaton::{shaped, tidy, Elem};
use crate::filter::syntax::{
    ahead, alternates, atom, bounds, class, compiled, copies, counted, defined, escaped, helper_name, interned, literal,
    member, name_char, name_end, name_index, named, optional, postfix, repeated, rule_ref, sequence, with_rule, Draft,
    GrammarError,
};
use crate::text::{index_of, skip_white, white};

verus! {

/// Whether a name is one that helper rules have.
pub open spec fn hidden(name: Seq<char>) -> bool {
    name.len() > 0 && name[0] == '_'
}

/// Names and rules are in step, and every rule ends where it should.
pub open spec fn draft_ok(d: Draft) -> bool {
    d.names.len() == d.rules.len() && tidy(d.rules)
}

/// Whether a draft came of another one by more names and rules, with no rule but helpers changed.
pub open spec fn grows(d: Draft, e: Draft) -> bool {
    &&& draft_ok(e)
    &&& d.names.len() <= e.names.len()
    &&& forall|i: int| 0 <= i < d.names.len() ==> #[trigger] e.names[i] == d.names[i]
    &&& forall|i: int| 0 <= i < d.names.len() && !hidden(d.names[i]) ==> #[trigger] e.rules[i] == d.rules[i]
}

/// Whether no element ends a rule.
pub open spec fn unended(row: Seq<Elem>) -> bool {
    forall|i: int| 0 <= i < row.len() ==> #[trigger] row[i] != Elem::End
}

/// Where the literal ends whose characters go on at `p`; `None` where it is refused.
#[verifier::opaque]
pub open spec fn literal_end(s: Seq<char>, p: int) -> Option<int>
    decreases s.len() - p,
{
    if !(0 <= p < s.len()) {
        None
    } else if s[p] == '"' {
        Some(p + 1)
    } else {
        match escaped(s, p) {
            Err(_) => None,
            Ok((_, q)) => if q > p {
                literal_end(s, q)
            } else {
                None
            },
        }
    }
}

/// Where the class ends whose members go on at `p`, the first of them where it is `empty` so far;
/// `None` where it is refused.
#[verifier::opaque]
pub open spec fn class_end(s: Seq<char>, p: int, empty: bool) -> Option<int>
    decreases s.len() - p,
{
    if !(0 <= p < s.len()) {
        None
    } else if s[p] == ']' {
        if empty {
            None
        } else {
            Some(p + 1)
        }
    } else {
        match escaped(s, p) {
            Err(_) => None,
            Ok((_, q)) => if q + 1 < s.len() && s[q] == '-' && s[q + 1] != ']' {
                match escaped(s, q + 1) {
                    Err(_) => None,
                    Ok((_, t)) => if t > p {
                        class_end(s, t, false)
                    } else {
                        None
                    },
                }
            } else if q > p {
                class_end(s, q, false)
            } else {
                None
            },
        }
    }
}

/// Where the atom that begins at `p` ends; `None` where it is refused.
#[verifier::opaque]
pub open spec fn atom_end(s: Seq<char>, p: int) -> Option<int>
    decreases s.len() - p, 0nat,
{
    let c = s[p];
    if c == '"' {
        literal_end(s, p + 1)
    } else if c == '[' {
        class_end(
            s,
            if p + 1 < s.len() && s[p + 1] == '^' {
                p + 2
            } else {
                p + 1
            },
            true,
        )
    } else if c == '.' {
        Some(p + 1)
    } else if c == '(' {
        if !(p < s.len()) {
            None
        } else {
            match alternates_end(s, p + 1, true) {
                None => None,
                Some(q) => {
                    let t = skip_white(s, q);
                    if t >= s.len() || s[t] != ')' {
                        None
                    } else {
                        Some(t + 1)
                    }
                },
            }
        }
    } else if name_char(c) {
        Some(name_end(s, p))
    } else {
        None
    }
}

/// Where the repetition at `p` ends, if one stands there.
#[verifier::opaque]
pub open spec fn postfix_end(s: Seq<char>, p: int) -> Option<int> {
    if p < s.len() && (s[p] == '*' || s[p] == '+' || s[p] == '?') {
        Some(p + 1)
    } else if p < s.len() && s[p] == '{' {
        let q = index_of(s, '}', p + 1);
        match bounds(s.subrange(p + 1, q)) {
            Err(_) => None,
            Ok(_) => Some(ahead(s, q, 1)),
        }
    } else {
        Some(p)
    }
}

/// Where the alternate from `p0` on ends; `None` where it is refused.
#[verifier::opaque]
pub open spec fn sequence_end(s: Seq<char>, p0: int, in_group: bool) -> Option<int>
    decreases s.len() - p0, 1nat,
{
    let p = skip_white(s, p0);
    if !(0 <= p0 <= p < s.len()) || s[p] == '|' {
        Some(p)
    } else if s[p] == ')' {
        if in_group {
            Some(p)
        } else {
            None
        }
    } else {
        match atom_end(s, p) {
            None => None,
            Some(q) => match postfix_end(s, skip_white(s, q)) {
                None => None,
                Some(t) => if p0 < t <= s.len() {
                    sequence_end(s, t, in_group)
                } else {
                    Some(t)
                },
            },
        }
    }
}

/// Where the alternates from `p` on end; `None` where they are refused.
#[verifier::opaque]
pub open spec fn alternates_end(s: Seq<char>, p: int, in_group: bool) -> Option<int>
    decreases s.len() - p, 2nat,
{
    match sequence_end(s, p, in_group) {
        None => None,
        Some(q0) => {
            let q = skip_white(s, q0);
            if 0 <= p <= q < s.len() && s[q] == '|' {
                alternates_end(s, q + 1, in_group)
            } else {
                Some(q)
            }
        },
    }
}

proof fn lemma_grows_on(d: Draft, e: Draft, f: Draft)
    requires
        grows(d, e),
        grows(e, f),
    ensures
        grows(d, f),
{
    assert forall|i: int| 0 <= i < d.names.len() implies #[trigger] f.names[i] == d.names[i] by {
        assert(f.names[i] == e.names[i]);
    }
    assert forall|i: int| 0 <= i < d.names.len() && !hidden(d.names[i]) implies #[trigger] f.rules[i] == d.rules[i] by {
        assert(e.names[i] == d.names[i]);
        assert(f.rules[i] == e.rules[i]);
    }
}

proof fn lemma_grows_none(d: Draft)
    requires
        draft_ok(d),
    ensures
        grows(d, d),
{
}

/// Where a name stands.
pub proof fn lemma_name_index(names: Seq<Seq<char>>, x: Seq<char>)
    ensures
        -1 <= name_index(names, x) < names.len(),
        name_index(names, x) >= 0 ==> names[name_index(names, x)] == x,
    decreases names.len(),
{
    if names.len() > 0 {
        lemma_name_index(names.drop_last(), x);
    }
}

/// A name that is there stays where it is when names are added.
pub proof fn lemma_name_index_stays(a: Seq<Seq<char>>, b: Seq<Seq<char>>, x: Seq<char>)
    requires
        a.len() <= b.len(),
        forall|i: int| 0 <= i < a.len() ==> #[trigger] b[i] == a[i],
        name_index(a, x) >= 0,
    ensures
        name_index(b, x) == name_index(a, x),
    decreases b.len(),
{
    if a.len() == b.len() {
        assert(a =~= b);
    } else {
        let c = b.drop_last();
        assert forall|i: int| 0 <= i < a.len() implies #[trigger] c[i] == a[i] by {
            assert(b[i] == a[i]);
        }
        lemma_name_index_stays(a, c, x);
    }
}

/// Making a name.
pub proof fn lemma_interned(d: Draft, name: Seq<char>)
    requires
        draft_ok(d),
    ensures
        grows(d, interned(d, name).0),
        0 <= interned(d, name).1 < interned(d, name).0.names.len(),
        interned(d, name).0.names[interned(d, name).1] == name,
        name_index(interned(d, name).0.names, name) == interned(d, name).1,
        interned(d, name).0.names.len() <= d.names.len() + 1,
{
    lemma_name_index(d.names, name);
    let e = interned(d, name).0;
    if name_index(d.names, name) < 0 {
        assert(e.names.drop_last() =~= d.names);
        assert forall|s: int| 0 <= s < e.rules.len() && e.rules[s].len() > 0 implies shaped(#[trigger] e.rules[s]) by {
            if s < d.rules.len() {
                assert(e.rules[s] == d.rules[s]);
            }
        }
    }
}

/// Defining a helper rule.
proof fn lemma_defined(d: Draft, id: int, rule: Seq<Elem>)
    requires
        draft_ok(d),
        0 <= id < d.names.len(),
        hidden(d.names[id]),
        shaped(rule),
    ensures
        grows(d, defined(d, id, rule)),
{
    let e = defined(d, id, rule);
    assert forall|s: int| 0 <= s < e.rules.len() && e.rules[s].len() > 0 implies shaped(#[trigger] e.rules[s]) by {
        if s != id {
            assert(e.rules[s] == d.rules[s]);
        }
    }
}

proof fn lemma_with_rule(d: Draft, rule: Seq<Elem>)
    requires
        draft_ok(d),
        shaped(rule),
    ensures
        grows(d, with_rule(d, rule).0),
{
    let name = helper_name('r', d);
    lemma_interned(d, name);
    let (e, id) = interned(d, name);
    assert(name[0] == '_');
    lemma_defined(e, id, rule);
    lemma_grows_on(d, e, defined(e, id, rule));
}

proof fn lemma_ended(row: Seq<Elem>)
    requires
        unended(row),
    ensures
        shaped(row.push(Elem::End)),
{
    let r = row.push(Elem::End);
    assert forall|i: int| 0 <= i < r.len() - 1 implies r[i] != Elem::End by {
        assert(r[i] == row[i]);
    }
}

proof fn lemma_repeated(d: Draft, row: Seq<Elem>, op: char)
    requires
        draft_ok(d),
        unended(row),
    ensures
        grows(d, repeated(d, row, op).0),
{
    lemma_ended(row);
    lemma_with_rule(d, row.push(Elem::End));
    let (d1, sub) = with_rule(d, row.push(Elem::End));
    if op == '?' {
        lemma_with_rule(d1, seq![rule_ref(sub), Elem::Alt, Elem::End]);
        lemma_grows_on(d, d1, with_rule(d1, seq![rule_ref(sub), Elem::Alt, Elem::End]).0);
    } else {
        let name = helper_name('r', d1);
        lemma_interned(d1, name);
        let (d2, id) = interned(d1, name);
        assert(name[0] == '_');
        lemma_grows_on(d, d1, d2);
        if op == '*' {
            let rule = seq![rule_ref(sub), rule_ref(id), Elem::Alt, Elem::End];
            lemma_defined(d2, id, rule);
            lemma_grows_on(d, d2, defined(d2, id, rule));
        } else {
            let star_name = helper_name('s', d2);
            lemma_interned(d2, star_name);
            let (d3, star) = interned(d2, star_name);
            assert(star_name[0] == '_');
            lemma_grows_on(d, d2, d3);
            let rule = seq![rule_ref(sub), rule_ref(star), Elem::Alt, Elem::End];
            lemma_defined(d3, star, rule);
            let d4 = defined(d3, star, rule);
            lemma_grows_on(d, d3, d4);
            assert(d3.names[id] == d2.names[id]);
            let last = seq![rule_ref(sub), rule_ref(star), Elem::End];
            lemma_defined(d4, id, last);
            lemma_grows_on(d, d4, defined(d4, id, last));
        }
    }
}

proof fn lemma_optional(d: Draft, out: Seq<Elem>, sub: int, n: nat)
    requires
        draft_ok(d),
        unended(out),
    ensures
        grows(d, optional(d, out, sub, n).0),
        unended(optional(d, out, sub, n).1),
    decreases n,
{
    if n > 0 {
        lemma_optional(d, out, sub, (n - 1) as nat);
        let (d1, out1) = optional(d, out, sub, (n - 1) as nat);
        let rule = seq![rule_ref(sub), Elem::Alt, Elem::End];
        lemma_with_rule(d1, rule);
        lemma_grows_on(d, d1, with_rule(d1, rule).0);
    }
}

proof fn lemma_counted(d: Draft, row: Seq<Elem>, spec: Seq<char>)
    requires
        draft_ok(d),
        unended(row),
    ensures
        counted(d, row, spec) is Ok <==> bounds(spec) is Ok,
        counted(d, row, spec) matches Ok((e, _)) ==> grows(d, e),
{
    match bounds(spec) {
        Err(_) => {},
        Ok((min, max)) => {
            lemma_ended(row);
            lemma_with_rule(d, row.push(Elem::End));
            let (d1, sub) = with_rule(d, row.push(Elem::End));
            assert(unended(copies(sub, min)));
            match max {
                Some(mx) => {
                    let k = if mx > min {
                        (mx - min) as nat
                    } else {
                        0
                    };
                    lemma_optional(d1, copies(sub, min), sub, k);
                    let (d2, out) = optional(d1, copies(sub, min), sub, k);
                    lemma_grows_on(d, d1, d2);
                    lemma_ended(out);
                    lemma_with_rule(d2, out.push(Elem::End));
                    lemma_grows_on(d, d2, with_rule(d2, out.push(Elem::End)).0);
                },
                None => {
                    lemma_repeated(d1, row, '*');
                    let (d2, star) = repeated(d1, row, '*');
                    let out = copies(sub, min).push(rule_ref(star));
                    lemma_grows_on(d, d1, d2);
                    lemma_ended(out);
                    lemma_with_rule(d2, out.push(Elem::End));
                    lemma_grows_on(d, d2, with_rule(d2, out.push(Elem::End)).0);
                },
            }
        },
    }
}

/// The characters of a literal end no rule, and it ends where they do.
pub proof fn lemma_literal_ends(s: Seq<char>, p: int, out: Seq<Elem>)
    requires
        unended(out),
    ensures
        match literal(s, p, out) {
            Ok((row, q)) => unended(row) && literal_end(s, p) == Some(q),
            Err(_) => literal_end(s, p) is None,
        },
    decreases s.len() - p,
{
    reveal(literal_end);
    if 0 <= p < s.len() && s[p] != '"' {
        match escaped(s, p) {
            Ok((c, q)) => {
                if q > p {
                    lemma_literal_ends(s, q, out.push(Elem::Char(c)));
                }
            },
            Err(_) => {},
        }
    }
}

proof fn lemma_class_unended(s: Seq<char>, p: int, neg: bool, out: Seq<Elem>)
    requires
        unended(out),
    ensures
        match class(s, p, neg, out) {
            Ok((row, q)) => unended(row) && class_end(s, p, out.len() == 0) == Some(q),
            Err(_) => class_end(s, p, out.len() == 0) is None,
        },
    decreases s.len() - p,
{
    reveal(class_end);
    if 0 <= p < s.len() && s[p] != ']' {
        match escaped(s, p) {
            Err(_) => {},
            Ok((lo, q)) => {
                if q + 1 < s.len() && s[q] == '-' && s[q + 1] != ']' {
                    match escaped(s, q + 1) {
                        Err(_) => {},
                        Ok((hi, t)) => {
                            if t > p {
                                lemma_class_unended(s, t, neg, out + member(out.len() == 0, neg, lo, hi));
                            }
                        },
                    }
                } else if q > p {
                    lemma_class_unended(s, q, neg, out + member(out.len() == 0, neg, lo, lo));
                }
            },
        }
    }
}

pub proof fn lemma_atom(d: Draft, s: Seq<char>, p: int)
    requires
        draft_ok(d),
    ensures
        match atom(d, s, p) {
            Ok((e, row, q)) => atom_end(s, p) == Some(q) && grows(d, e) && unended(row),
            Err(_) => atom_end(s, p) is None,
        },
    decreases s.len() - p, 0nat,
{
    reveal(atom_end);
    reveal(sequence_end);
    reveal(alternates_end);
    let c = s[p];
    lemma_grows_none(d);
    if c == '"' {
        lemma_literal_ends(s, p + 1, seq![]);
    } else if c == '[' {
        let neg = p + 1 < s.len() && s[p + 1] == '^';
        lemma_class_unended(
            s,
            if neg {
                p + 2
            } else {
                p + 1
            },
            neg,
            seq![],
        );
    } else if c == '.' {
    } else if c == '(' {
        if p < s.len() {
            lemma_alternates(d, seq![], s, p + 1, true);
            match alternates(d, seq![], s, p + 1, true) {
                Err(_) => {},
                Ok((d1, row, q)) => {
                    lemma_with_rule(d1, row);
                    lemma_grows_on(d, d1, with_rule(d1, row).0);
                },
            }
        }
    } else if name_char(c) {
        lemma_interned(d, s.subrange(p, name_end(s, p)));
    }
}

pub proof fn lemma_postfix(d: Draft, row: Seq<Elem>, s: Seq<char>, p: int)
    requires
        draft_ok(d),
        unended(row),
    ensures
        match postfix(d, row, s, p) {
            Ok((e, r, q)) => postfix_end(s, p) == Some(q) && grows(d, e) && unended(r),
            Err(_) => postfix_end(s, p) is None,
        },
{
    reveal(postfix_end);
    lemma_grows_none(d);
    if p < s.len() && (s[p] == '*' || s[p] == '+' || s[p] == '?') {
        lemma_repeated(d, row, s[p]);
    } else if p < s.len() && s[p] == '{' {
        lemma_counted(d, row, s.subrange(p + 1, index_of(s, '}', p + 1)));
    }
}

proof fn lemma_sequence(d: Draft, out: Seq<Elem>, s: Seq<char>, p0: int, in_group: bool)
    requires
        draft_ok(d),
        unended(out),
    ensures
        match sequence(d, out, s, p0, in_group) {
            Ok((e, row, q)) => sequence_end(s, p0, in_group) == Some(q) && grows(d, e) && unended(row),
            Err(_) => sequence_end(s, p0, in_group) is None,
        },
    decreases s.len() - p0, 1nat,
{
    reveal(atom_end);
    reveal(sequence_end);
    reveal(alternates_end);
    let p = skip_white(s, p0);
    lemma_grows_none(d);
    if !(0 <= p0 <= p < s.len()) || s[p] == '|' || s[p] == ')' {
    } else {
        lemma_atom(d, s, p);
        match atom(d, s, p) {
            Err(_) => {},
            Ok((d1, row, q)) => {
                lemma_postfix(d1, row, s, skip_white(s, q));
                match postfix(d1, row, s, skip_white(s, q)) {
                    Err(_) => {},
                    Ok((d2, row2, t)) => {
                        lemma_grows_on(d, d1, d2);
                        if p0 < t <= s.len() {
                            lemma_sequence(d2, out + row2, s, t, in_group);
                            match sequence(d2, out + row2, s, t, in_group) {
                                Err(_) => {},
                                Ok((d3, _, _)) => {
                                    lemma_grows_on(d, d2, d3);
                                },
                            }
                        }
                    },
                }
            },
        }
    }
}

/// Compiling the alternates of a rule changes no other rule, ends its own where it should, and
/// fails or not, and ends, whatever was compiled before.
pub proof fn lemma_alternates(d: Draft, out: Seq<Elem>, s: Seq<char>, p: int, in_group: bool)
    requires
        draft_ok(d),
        unended(out),
    ensures
        match alternates(d, out, s, p, in_group) {
            Ok((e, row, q)) => alternates_end(s, p, in_group) == Some(q) && grows(d, e) && shaped(row),
            Err(_) => alternates_end(s, p, in_group) is None,
        },
    decreases s.len() - p, 2nat,
{
    reveal(atom_end);
    reveal(sequence_end);
    reveal(alternates_end);
    lemma_sequence(d, seq![], s, p, in_group);
    match sequence(d, seq![], s, p, in_group) {
        Err(_) => {},
        Ok((d1, row, q0)) => {
            let q = skip_white(s, q0);
            if 0 <= p <= q < s.len() && s[q] == '|' {
                lemma_alternates(d1, (out + row).push(Elem::Alt), s, q + 1, in_group);
                match alternates(d1, (out + row).push(Elem::Alt), s, q + 1, in_group) {
                    Err(_) => {},
                    Ok((d2, _, _)) => {
                        lemma_grows_on(d, d1, d2);
                    },
                }
            } else {
                lemma_ended(out + row);
            }
        },
    }
}

/// A literal goes on over plain characters up to its quote.
pub proof fn lemma_literal_run(s: Seq<char>, p: int, q: int)
    requires
        0 <= p <= q < s.len(),
        s[q] == '"',
        forall|i: int| p <= i < q ==> #[trigger] s[i] != '"' && s[i] != '\\',
    ensures
        literal_end(s, p) == Some(q + 1),
    decreases q - p,
{
    reveal(literal_end);
    if p < q {
        lemma_literal_run(s, p + 1, q);
    }
}

/// An escape inside a literal.
pub proof fn lemma_literal_escape(s: Seq<char>, p: int)
    requires
        0 <= p,
        p + 1 < s.len(),
        s[p] == '\\',
        s[p + 1] != 'x' && s[p + 1] != 'u',
    ensures
        literal_end(s, p) == literal_end(s, p + 2),
{
    reveal(literal_end);
}

/// The end of a class.
pub proof fn lemma_class_close(s: Seq<char>, p: int)
    requires
        0 <= p < s.len(),
        s[p] == ']',
    ensures
        class_end(s, p, false) == Some(p + 1),
{
    reveal(class_end);
}

/// A character of a class, by itself.
pub proof fn lemma_class_char(s: Seq<char>, p: int, empty: bool)
    requires
        0 <= p,
        p + 1 < s.len(),
        s[p] != ']' && s[p] != '\\',
        s[p + 1] != '-',
    ensures
        class_end(s, p, empty) == class_end(s, p + 1, false),
{
    reveal(class_end);
}

/// A range of a class.
pub proof fn lemma_class_range(s: Seq<char>, p: int, empty: bool)
    requires
        0 <= p,
        p + 2 < s.len(),
        s[p] != ']' && s[p] != '\\',
        s[p + 1] == '-',
        s[p + 2] != ']' && s[p + 2] != '\\',
    ensures
        class_end(s, p, empty) == class_end(s, p + 3, false),
{
    reveal(class_end);
}

/// An escape inside a class.
pub proof fn lemma_class_escape(s: Seq<char>, p: int, empty: bool)
    requires
        0 <= p,
        p + 2 < s.len(),
        s[p] == '\\',
        s[p + 1] != 'x' && s[p + 1] != 'u',
        s[p + 2] != '-',
    ensures
        class_end(s, p, empty) == class_end(s, p + 2, false),
{
    reveal(class_end);
}

/// A literal is an atom.
pub proof fn lemma_atom_literal(s: Seq<char>, p: int)
    requires
        0 <= p < s.len(),
        s[p] == '"',
    ensures
        atom_end(s, p) == literal_end(s, p + 1),
{
    reveal(atom_end);
    reveal(sequence_end);
    reveal(alternates_end);
}

/// A class is an atom.
pub proof fn lemma_atom_class(s: Seq<char>, p: int)
    requires
        0 <= p,
        p + 1 < s.len(),
        s[p] == '[',
    ensures
        atom_end(s, p) == class_end(
            s,
            if s[p + 1] == '^' {
                p + 2
            } else {
                p + 1
            },
            true,
        ),
{
    reveal(atom_end);
    reveal(sequence_end);
    reveal(alternates_end);
}

pub proof fn lemma_name_end_is(s: Seq<char>, p: int, q: int)
    requires
        0 <= p <= q <= s.len(),
        forall|i: int| p <= i < q ==> name_char(#[trigger] s[i]),
        q < s.len() ==> !name_char(s[q]),
    ensures
        name_end(s, p) == q,
    decreases q - p,
{
    if p < q {
        lemma_name_end_is(s, p + 1, q);
    }
}

/// A name is an atom.
pub proof fn lemma_atom_name(s: Seq<char>, p: int, q: int)
    requires
        0 <= p < q <= s.len(),
        forall|i: int| p <= i < q ==> name_char(#[trigger] s[i]),
        q < s.len() ==> !name_char(s[q]),
    ensures
        atom_end(s, p) == Some(q),
{
    reveal(atom_end);
    reveal(sequence_end);
    reveal(alternates_end);
    assert(name_char(s[p]));
    lemma_name_end_is(s, p, q);
}

/// A group is an atom.
pub proof fn lemma_atom_group(s: Seq<char>, p: int, q: int)
    requires
        0 <= p < q < s.len(),
        s[p] == '(',
        s[q] == ')',
        alternates_end(s, p + 1, true) == Some(q),
    ensures
        atom_end(s, p) == Some(q + 1),
{
    reveal(atom_end);
    reveal(sequence_end);
    reveal(alternates_end);
    assert(skip_white(s, q) == q);
}

/// Whether what is read next from `p0` on stands at `p`: there, or behind one space.
pub open spec fn next_at(s: Seq<char>, p0: int, p: int) -> bool {
    &&& 0 <= p0 <= p < s.len()
    &&& p == p0 || (p == p0 + 1 && s[p0] == ' ')
    &&& !white(s[p])
}

proof fn lemma_next(s: Seq<char>, p0: int, p: int)
    requires
        next_at(s, p0, p),
    ensures
        skip_white(s, p0) == p,
{
    assert(skip_white(s, p) == p);
}

/// An alternate goes on behind an atom with its repetition.
pub proof fn lemma_item(s: Seq<char>, p0: int, p: int, q: int, t: int, in_group: bool)
    requires
        next_at(s, p0, p),
        s[p] != '|' && s[p] != ')',
        atom_end(s, p) == Some(q),
        p < q <= s.len(),
        if q < s.len() && (s[q] == '*' || s[q] == '+' || s[q] == '?') {
            t == q + 1
        } else if q < s.len() {
            next_at(s, q, t) && s[t] != '*' && s[t] != '+' && s[t] != '?' && s[t] != '{'
        } else {
            t == q
        },
    ensures
        sequence_end(s, p0, in_group) == sequence_end(s, t, in_group),
{
    reveal(atom_end);
    reveal(sequence_end);
    reveal(alternates_end);
    reveal(postfix_end);
    lemma_next(s, p0, p);
    if q < s.len() && (s[q] == '*' || s[q] == '+' || s[q] == '?') {
        assert(skip_white(s, q) == q);
    } else if q < s.len() {
        lemma_next(s, q, t);
    } else {
        assert(skip_white(s, q) == q);
    }
}

/// An alternate ends where another one begins, where its group ends, or where the text does.
pub proof fn lemma_items_end(s: Seq<char>, p0: int, p: int, in_group: bool)
    requires
        (p0 == p == s.len()) || (next_at(s, p0, p) && (s[p] == '|' || (s[p] == ')' && in_group))),
    ensures
        sequence_end(s, p0, in_group) == Some(p),
{
    reveal(atom_end);
    reveal(sequence_end);
    reveal(alternates_end);
    if p0 < s.len() {
        lemma_next(s, p0, p);
    }
}

/// A space alone is an alternate that reads nothing.
pub proof fn lemma_items_end_blank(s: Seq<char>)
    requires
        s.len() == 1,
        s[0] == ' ',
    ensures
        alternates_end(s, 0, false) == Some(1int),
{
    reveal(atom_end);
    reveal(sequence_end);
    reveal(alternates_end);
    assert(skip_white(s, 1) == 1);
    assert(skip_white(s, 0) == 1);
    assert(sequence_end(s, 0, false) == Some(1int));
}

/// Alternates go on behind a bar.
pub proof fn lemma_bar(s: Seq<char>, p0: int, p: int, in_group: bool)
    requires
        0 <= p0 <= p < s.len(),
        s[p] == '|',
        sequence_end(s, p0, in_group) == Some(p),
    ensures
        alternates_end(s, p0, in_group) == alternates_end(s, p + 1, in_group),
{
    reveal(atom_end);
    reveal(sequence_end);
    reveal(alternates_end);
    assert(skip_white(s, p) == p);
}

/// Alternates end where the last one does.
pub proof fn lemma_bars_end(s: Seq<char>, p0: int, p: int, in_group: bool)
    requires
        0 <= p0 <= p <= s.len(),
        p < s.len() ==> s[p] == ')',
        sequence_end(s, p0, in_group) == Some(p),
    ensures
        alternates_end(s, p0, in_group) == Some(p),
{
    reveal(atom_end);
    reveal(sequence_end);
    reveal(alternates_end);
    assert(skip_white(s, p) == p);
}

/// The names of definitions, before anything is compiled.
pub proof fn lemma_named(defs: Seq<(Seq<char>, Seq<char>)>, n: int)
    requires
        0 <= n <= defs.len(),
    ensures
        draft_ok(named(defs, n)),
        named(defs, n).names.len() <= n,
        forall|i: int| 0 <= i < n ==> name_index(named(defs, n).names, (#[trigger] defs[i]).0) >= 0,
    decreases n,
{
    if n > 0 {
        lemma_named(defs, n - 1);
        let a = named(defs, n - 1);
        let b = named(defs, n);
        lemma_interned(a, defs[n - 1].0);
        assert forall|i: int| 0 <= i < n implies name_index(b.names, (#[trigger] defs[i]).0) >= 0 by {
            if i < n - 1 {
                lemma_name_index_stays(a.names, b.names, defs[i].0);
            }
        }
    }
}

/// One more definition compiled.
pub proof fn lemma_compiled_step(defs: Seq<(Seq<char>, Seq<char>)>, n: int, d: Draft)
    requires
        0 < n <= defs.len(),
        compiled(defs, n - 1) == Ok::<Draft, GrammarError>(d),
        draft_ok(d),
        name_index(d.names, defs[n - 1].0) >= 0,
        alternates_end(defs[n - 1].1, 0, false) is Some,
    ensures
        alternates(d, seq![], defs[n - 1].1, 0, false) is Ok,
        ({
            let id = name_index(d.names, defs[n - 1].0);
            let (e, row, q) = alternates(d, seq![], defs[n - 1].1, 0, false)->Ok_0;
            &&& compiled(defs, n) == Ok::<Draft, GrammarError>(defined(e, id, row))
            &&& grows(d, e)
            &&& shaped(row)
            &&& draft_ok(defined(e, id, row))
            &&& 0 <= id < d.names.len()
        }),
{
    let id = name_index(d.names, defs[n - 1].0);
    lemma_name_index(d.names, defs[n - 1].0);
    lemma_alternates(d, seq![], defs[n - 1].1, 0, false);
    let (e, row, q) = alternates(d, seq![], defs[n - 1].1, 0, false)->Ok_0;
    let f = defined(e, id, row);
    assert forall|s: int| 0 <= s < f.rules.len() && f.rules[s].len() > 0 implies shaped(#[trigger] f.rules[s]) by {
        if s != id {
            assert(f.rules[s] == e.rules[s]);
        }
    }
}

/// Definitions whose bodies are well formed compile, and keep the names.
pub proof fn lemma_compiled(defs: Seq<(Seq<char>, Seq<char>)>, n: int)
    requires
        0 <= n <= defs.len(),
        forall|i: int| 0 <= i < n ==> alternates_end((#[trigger] defs[i]).1, 0, false) is Some,
    ensures
        compiled(defs, n) matches Ok(d) && draft_ok(d) && named(defs, defs.len() as int).names.len() <= d.names.len()
            && forall|i: int|
            0 <= i < named(defs, defs.len() as int).names.len() ==> #[trigger] d.names[i] == named(
                defs,
                defs.len() as int,
            ).names[i],
    decreases n,
{
    let all = named(defs, defs.len() as int);
    lemma_named(defs, defs.len() as int);
    if n > 0 {
        lemma_compiled(defs, n - 1);
        let d = compiled(defs, n - 1)->Ok_0;
        assert(name_index(all.names, defs[n - 1].0) >= 0);
        lemma_name_index_stays(all.names, d.names, defs[n - 1].0);
        assert(alternates_end(defs[n - 1].1, 0, false) is Some);
        lemma_compiled_step(defs, n, d);
        let (e, row, q) = alternates(d, seq![], defs[n - 1].1, 0, false)->Ok_0;
        assert forall|i: int| 0 <= i < all.names.len() implies #[trigger] e.names[i] == all.names[i] by {
            assert(d.names[i] == all.names[i]);
        }
    }
}

} // verus!
