//! Grammars in a subset of GBNF.
//!
//! Supported syntax: `name ::= ...`, string literals `"..."`, character classes `[a-z]`
//! and `[^...]`, `.`, postfix `* + ?` and `{m,n}`, `|`, groups, rule references, and `#`
//! comments. The entry rule is `root`.
use vstd::prelude::*;
use crate::filter::automaton::{check_sound, rows, sound_from, Elem};
use crate::filter::syntax::{
    alternates, atom, bounds, class, comment_index, compiled, copies, counted, def_index, defined, definitions, escaped,
    grammar_of, helper_name, interned, literal, member, name_char, name_end, name_index, named, optional, postfix,
    read_line, read_lines, repeated, rule_ref, sequence, with_rule, without_comment, Draft, GrammarError, Reading,
};
use crate::text::{
    chars_of, copy_chars, find_char, push_decimal, push_text, read_number, same_chars, skip_ws, string_of, trimmed,
};

pub use crate::filter::matcher::{GrammarAcceptor, Matcher};

verus! {

/// A compiled grammar.
#[derive(Debug)]
pub struct Grammar {
    /// The rules, each a row of elements; a rule that was never defined is empty.
    pub rules: Vec<Vec<Elem>>,
    /// The rule to begin with.
    pub root: usize,
}

impl Grammar {
    /// The rules as sequences.
    pub open spec fn model(&self) -> Seq<Seq<Elem>> {
        rows(self.rules@)
    }

    /// Whether every rule that can be reached from the root is defined, and the machine
    /// always comes to rest on it: no rule can call itself before it has read a character.
    pub open spec fn sound(&self) -> bool {
        sound_from(self.model(), self.root as int)
    }

    /// Whether a [`Matcher`] can run on the grammar.
    pub fn is_sound(&self) -> (r: bool)
        ensures
            r == self.sound(),
    {
        check_sound(&self.rules, self.root)
    }
}

proof fn lemma_rows_push<T>(v: Seq<Vec<T>>, x: Vec<T>)
    ensures
        rows(v.push(x)) == rows(v).push(x@),
{
    assert(rows(v.push(x)) =~= rows(v).push(x@));
}

proof fn lemma_rows_update<T>(v: Seq<Vec<T>>, i: int, x: Vec<T>)
    requires
        0 <= i < v.len(),
    ensures
        rows(v.update(i, x)) == rows(v).update(i, x@),
{
    assert(rows(v.update(i, x)) =~= rows(v).update(i, x@));
}

proof fn lemma_name_index(names: Seq<Seq<char>>, name: Seq<char>)
    ensures
        -1 <= name_index(names, name) < names.len(),
        name_index(names, name) >= 0 ==> names[name_index(names, name)] == name,
        name_index(names, name) < 0 ==> forall|j: int| 0 <= j < names.len() ==> names[j] != name,
        forall|j: int| 0 <= j < name_index(names, name) ==> names[j] != name,
    decreases names.len(),
{
    if names.len() > 0 {
        lemma_name_index(names.drop_last(), name);
        let p = name_index(names.drop_last(), name);
        assert forall|j: int| 0 <= j < names.len() - 1 implies names[j] == names.drop_last()[j] by {}
        if p < 0 {
            assert forall|j: int| 0 <= j < names.len() - 1 implies names[j] != name by {
                assert(names.drop_last()[j] != name);
            }
        }
    }
}

/// The place of the first name equal to `name`.
fn find_name(names: &Vec<Vec<char>>, name: &Vec<char>) -> (r: Option<usize>)
    ensures
        match r {
            Some(i) => name_index(rows(names@), name@) == i,
            None => name_index(rows(names@), name@) == -1,
        },
{
    let ghost ns = rows(names@);
    proof {
        lemma_name_index(ns, name@);
    }
    let mut i: usize = 0;
    while i < names.len()
        invariant
            i <= names.len(),
            ns == rows(names@),
            forall|j: int| 0 <= j < i ==> ns[j] != name@,
        decreases names.len() - i,
    {
        assert(ns[i as int] == names[i as int]@);
        if same_chars(&names[i], name) {
            proof {
                lemma_name_index(ns, name@);
            }
            return Some(i);
        }
        i = i + 1;
    }
    None
}

/// The rules compiled so far and their names.
struct Parser {
    rules: Vec<Vec<Elem>>,
    names: Vec<Vec<char>>,
}

impl Parser {
    spec fn draft(&self) -> Draft {
        Draft { names: rows(self.names@), rules: rows(self.rules@) }
    }

    spec fn inv(&self) -> bool {
        self.names@.len() == self.rules@.len()
    }

    fn intern(&mut self, name: &Vec<char>) -> (id: usize)
        requires
            old(self).inv(),
        ensures
            final(self).inv(),
            (final(self).draft(), id as int) == interned(old(self).draft(), name@),
            id < final(self).rules@.len(),
            old(self).rules@.len() <= final(self).rules@.len(),
    {
        proof {
            lemma_name_index(rows(self.names@), name@);
        }
        match find_name(&self.names, name) {
            Some(i) => i,
            None => {
                let id: usize = self.names.len();
                let n = copy_chars(name, 0, name.len());
                assert(n@ =~= name@);
                let row: Vec<Elem> = Vec::new();
                proof {
                    lemma_rows_push(self.names@, n);
                    lemma_rows_push(self.rules@, row);
                    assert(row@ =~= seq![]);
                }
                self.names.push(n);
                self.rules.push(row);
                id
            },
        }
    }

    fn define(&mut self, id: usize, rule: Vec<Elem>)
        requires
            old(self).inv(),
            id < old(self).rules@.len(),
        ensures
            final(self).inv(),
            final(self).draft() == defined(old(self).draft(), id as int, rule@),
            final(self).rules@.len() == old(self).rules@.len(),
    {
        proof {
            lemma_rows_update(self.rules@, id as int, rule);
        }
        self.rules.set(id, rule);
    }

    fn helper(&self, kind: char) -> (name: Vec<char>)
        requires
            self.inv(),
        ensures
            name@ == helper_name(kind, self.draft()),
    {
        let mut name: Vec<char> = Vec::new();
        name.push('_');
        name.push('_');
        name.push(kind);
        assert(name@ =~= seq!['_', '_', kind]);
        push_decimal(&mut name, self.rules.len());
        name
    }

    fn fresh_rule(&mut self, rule: Vec<Elem>) -> (id: usize)
        requires
            old(self).inv(),
        ensures
            final(self).inv(),
            (final(self).draft(), id as int) == with_rule(old(self).draft(), rule@),
            id < final(self).rules@.len(),
            old(self).rules@.len() <= final(self).rules@.len(),
    {
        let name = self.helper('r');
        let id = self.intern(&name);
        self.define(id, rule);
        id
    }

    /// `atom*`, `atom+` or `atom?` as a rule.
    fn wrap_repeat(&mut self, row: Vec<Elem>, op: char) -> (id: usize)
        requires
            old(self).inv(),
        ensures
            final(self).inv(),
            (final(self).draft(), id as int) == repeated(old(self).draft(), row@, op),
            id < final(self).rules@.len(),
            old(self).rules@.len() <= final(self).rules@.len(),
    {
        let mut sub = row;
        sub.push(Elem::End);
        let sub_id = self.fresh_rule(sub);
        if op == '?' {
            let r = vec![Elem::RuleRef(sub_id), Elem::Alt, Elem::End];
            assert(r@ =~= seq![rule_ref(sub_id as int), Elem::Alt, Elem::End]);
            self.fresh_rule(r)
        } else if op == '*' {
            let name = self.helper('r');
            let id = self.intern(&name);
            let r = vec![Elem::RuleRef(sub_id), Elem::RuleRef(id), Elem::Alt, Elem::End];
            assert(r@ =~= seq![rule_ref(sub_id as int), rule_ref(id as int), Elem::Alt, Elem::End]);
            self.define(id, r);
            id
        } else {
            let name = self.helper('r');
            let id = self.intern(&name);
            let star_name = self.helper('s');
            let star = self.intern(&star_name);
            let r = vec![Elem::RuleRef(sub_id), Elem::RuleRef(star), Elem::Alt, Elem::End];
            assert(r@ =~= seq![rule_ref(sub_id as int), rule_ref(star as int), Elem::Alt, Elem::End]);
            self.define(star, r);
            let r2 = vec![Elem::RuleRef(sub_id), Elem::RuleRef(star), Elem::End];
            assert(r2@ =~= seq![rule_ref(sub_id as int), rule_ref(star as int), Elem::End]);
            self.define(id, r2);
            id
        }
    }

    /// `atom{..}` as a rule.
    fn wrap_count(&mut self, row: Vec<Elem>, spec: &Vec<char>) -> (r: Result<usize, GrammarError>)
        requires
            old(self).inv(),
        ensures
            match r {
                Ok(id) => final(self).inv() && old(self).rules@.len() <= final(self).rules@.len() && counted(old(self).draft(), row@, spec@) == Ok::<
                    (Draft, int),
                    GrammarError,
                >((final(self).draft(), id as int)) && id < final(self).rules@.len(),
                Err(e) => counted(old(self).draft(), row@, spec@) == Err::<(Draft, int), GrammarError>(e),
            },
    {
        let (min, max): (u32, Option<u32>) = match read_bounds(spec) {
            Ok(b) => b,
            Err(e) => {
                return Err(e);
            },
        };
        let mut sub = copy_elems(&row);
        sub.push(Elem::End);
        let sub_id = self.fresh_rule(sub);
        let mut out: Vec<Elem> = Vec::new();
        let mut k: u32 = 0;
        assert(out@ =~= copies(sub_id as int, 0));
        while k < min
            invariant
                k <= min,
                out@ == copies(sub_id as int, k as nat),
            decreases min - k,
        {
            out.push(Elem::RuleRef(sub_id));
            k = k + 1;
            assert(out@ =~= copies(sub_id as int, k as nat));
        }
        match max {
            Some(mx) => {
                let ghost d1 = self.draft();
                let ghost row0 = out@;
                let more: u32 = if mx > min {
                    mx - min
                } else {
                    0
                };
                let mut j: u32 = 0;
                while j < more
                    invariant
                        j <= more,
                        self.inv(),
                        old(self).rules@.len() <= self.rules@.len(),
                        (self.draft(), out@) == optional(d1, row0, sub_id as int, j as nat),
                    decreases more - j,
                {
                    let r = vec![Elem::RuleRef(sub_id), Elem::Alt, Elem::End];
                    assert(r@ =~= seq![rule_ref(sub_id as int), Elem::Alt, Elem::End]);
                    let opt = self.fresh_rule(r);
                    out.push(Elem::RuleRef(opt));
                    j = j + 1;
                }
            },
            None => {
                let star = self.wrap_repeat(row, '*');
                out.push(Elem::RuleRef(star));
            },
        }
        out.push(Elem::End);
        Ok(self.fresh_rule(out))
    }

    /// The atom that begins at `p`.
    fn parse_atom(&mut self, s: &Vec<char>, p: usize) -> (r: Result<(Vec<Elem>, usize), GrammarError>)
        requires
            old(self).inv(),
            p < s@.len(),
        ensures
            match r {
                Ok((row, q)) => final(self).inv() && p < q <= s@.len() && old(self).rules@.len()
                    <= final(self).rules@.len() && atom(
                    old(self).draft(),
                    s@,
                    p as int,
                ) == Ok::<(Draft, Seq<Elem>, int), GrammarError>((final(self).draft(), row@, q as int)),
                Err(e) => atom(old(self).draft(), s@, p as int) == Err::<
                    (Draft, Seq<Elem>, int),
                    GrammarError,
                >(e),
            },
        decreases s@.len() - p, 0nat,
    {
        let n: usize = s.len();
        assert(p < n);
        let c = s[p];
        if c == '"' {
            read_literal(s, p + 1)
        } else if c == '[' {
            let neg: bool = p + 1 < s.len() && s[p + 1] == '^';
            if neg {
                read_class(s, p + 2, true)
            } else {
                read_class(s, p + 1, false)
            }
        } else if c == '.' {
            let row = vec![Elem::CharNot(0), Elem::CharRngUpper(0)];
            assert(row@ =~= seq![Elem::CharNot(0), Elem::CharRngUpper(0)]);
            Ok((row, p + 1))
        } else if c == '(' {
            match self.parse_alternates(s, p + 1, true) {
                Err(e) => Err(e),
                Ok((row, q)) => {
                    let t = skip_ws(s, q);
                    if t >= s.len() || s[t] != ')' {
                        Err(GrammarError::MissingParen)
                    } else {
                        let id = self.fresh_rule(row);
                        let out = vec![Elem::RuleRef(id)];
                        assert(out@ =~= seq![rule_ref(id as int)]);
                        Ok((out, t + 1))
                    }
                },
            }
        } else if is_name_char(c) {
            let mut q: usize = p;
            while q < s.len() && is_name_char(s[q])
                invariant
                    p <= q <= s@.len(),
                    q == p ==> name_char(s@[p as int]) && p < s@.len(),
                    name_end(s@, q as int) == name_end(s@, p as int),
                decreases s@.len() - q,
            {
                q = q + 1;
            }
            let name = copy_chars(s, p, q);
            let id = self.intern(&name);
            let out = vec![Elem::RuleRef(id)];
            assert(out@ =~= seq![rule_ref(id as int)]);
            Ok((out, q))
        } else {
            Err(GrammarError::Unexpected(c))
        }
    }

    /// The atoms of one alternate from `p0` on.
    fn parse_sequence(&mut self, s: &Vec<char>, p0: usize, in_group: bool) -> (r: Result<
        (Vec<Elem>, usize),
        GrammarError,
    >)
        requires
            old(self).inv(),
            p0 <= s@.len(),
        ensures
            match r {
                Ok((row, q)) => final(self).inv() && p0 <= q <= s@.len() && old(self).rules@.len()
                    <= final(self).rules@.len() && sequence(
                    old(self).draft(),
                    seq![],
                    s@,
                    p0 as int,
                    in_group,
                ) == Ok::<(Draft, Seq<Elem>, int), GrammarError>((final(self).draft(), row@, q as int)),
                Err(e) => sequence(old(self).draft(), seq![], s@, p0 as int, in_group) == Err::<
                    (Draft, Seq<Elem>, int),
                    GrammarError,
                >(e),
            },
        decreases s@.len() - p0, 1nat,
    {
        let ghost goal = sequence(self.draft(), seq![], s@, p0 as int, in_group);
        let mut out: Vec<Elem> = Vec::new();
        let mut pos: usize = p0;
        assert(out@ =~= seq![]);
        loop
            invariant
                self.inv(),
                old(self).rules@.len() <= self.rules@.len(),
                p0 <= pos <= s@.len(),
                goal == sequence(old(self).draft(), seq![], s@, p0 as int, in_group),
                goal == sequence(self.draft(), out@, s@, pos as int, in_group),
            decreases s@.len() - pos,
        {
            let p = skip_ws(s, pos);
            if p >= s.len() || s[p] == '|' {
                return Ok((out, p));
            }
            if s[p] == ')' {
                if in_group {
                    return Ok((out, p));
                }
                return Err(GrammarError::UnmatchedParen);
            }
            let (row, q) = match self.parse_atom(s, p) {
                Ok(x) => x,
                Err(e) => {
                    return Err(e);
                },
            };
            let t = skip_ws(s, q);
            let (mut row2, next) = match self.parse_postfix(row, s, t) {
                Ok(x) => x,
                Err(e) => {
                    return Err(e);
                },
            };
            out.append(&mut row2);
            pos = next;
        }
    }

    /// An atom with the repetition that stands at `p`, if one does.
    fn parse_postfix(&mut self, row: Vec<Elem>, s: &Vec<char>, p: usize) -> (r: Result<
        (Vec<Elem>, usize),
        GrammarError,
    >)
        requires
            old(self).inv(),
            p <= s@.len(),
        ensures
            match r {
                Ok((out, q)) => final(self).inv() && p <= q <= s@.len() && old(self).rules@.len()
                    <= final(self).rules@.len() && postfix(
                    old(self).draft(),
                    row@,
                    s@,
                    p as int,
                ) == Ok::<(Draft, Seq<Elem>, int), GrammarError>((final(self).draft(), out@, q as int)),
                Err(e) => postfix(old(self).draft(), row@, s@, p as int) == Err::<
                    (Draft, Seq<Elem>, int),
                    GrammarError,
                >(e),
            },
    {
        if p < s.len() && (s[p] == '*' || s[p] == '+' || s[p] == '?') {
            let id = self.wrap_repeat(row, s[p]);
            let out = vec![Elem::RuleRef(id)];
            assert(out@ =~= seq![rule_ref(id as int)]);
            Ok((out, p + 1))
        } else if p < s.len() && s[p] == '{' {
            let q = find_char(s, '}', p + 1);
            let spec = copy_chars(s, p + 1, q);
            match self.wrap_count(row, &spec) {
                Err(e) => Err(e),
                Ok(id) => {
                    let out = vec![Elem::RuleRef(id)];
                    assert(out@ =~= seq![rule_ref(id as int)]);
                    let next: usize = if q < s.len() {
                        q + 1
                    } else {
                        s.len()
                    };
                    Ok((out, next))
                },
            }
        } else {
            Ok((row, p))
        }
    }

    /// The alternates from `p0` on, as one row.
    fn parse_alternates(&mut self, s: &Vec<char>, p0: usize, in_group: bool) -> (r: Result<
        (Vec<Elem>, usize),
        GrammarError,
    >)
        requires
            old(self).inv(),
            p0 <= s@.len(),
        ensures
            match r {
                Ok((row, q)) => final(self).inv() && p0 <= q <= s@.len() && old(self).rules@.len()
                    <= final(self).rules@.len() && alternates(
                    old(self).draft(),
                    seq![],
                    s@,
                    p0 as int,
                    in_group,
                ) == Ok::<(Draft, Seq<Elem>, int), GrammarError>((final(self).draft(), row@, q as int)),
                Err(e) => alternates(old(self).draft(), seq![], s@, p0 as int, in_group) == Err::<
                    (Draft, Seq<Elem>, int),
                    GrammarError,
                >(e),
            },
        decreases s@.len() - p0, 2nat,
    {
        let ghost goal = alternates(self.draft(), seq![], s@, p0 as int, in_group);
        let mut out: Vec<Elem> = Vec::new();
        let mut pos: usize = p0;
        assert(out@ =~= seq![]);
        loop
            invariant
                self.inv(),
                old(self).rules@.len() <= self.rules@.len(),
                p0 <= pos <= s@.len(),
                goal == alternates(old(self).draft(), seq![], s@, p0 as int, in_group),
                goal == alternates(self.draft(), out@, s@, pos as int, in_group),
            decreases s@.len() - pos,
        {
            let (mut row, q0) = match self.parse_sequence(s, pos, in_group) {
                Ok(x) => x,
                Err(e) => {
                    return Err(e);
                },
            };
            out.append(&mut row);
            let q = skip_ws(s, q0);
            if q < s.len() && s[q] == '|' {
                out.push(Elem::Alt);
                pos = q + 1;
            } else {
                out.push(Elem::End);
                return Ok((out, q));
            }
        }
    }
}

fn copy_elems(v: &Vec<Elem>) -> (r: Vec<Elem>)
    ensures
        r@ == v@,
{
    let mut r: Vec<Elem> = Vec::new();
    let mut i: usize = 0;
    while i < v.len()
        invariant
            i <= v.len(),
            r@ == v@.take(i as int),
        decreases v.len() - i,
    {
        r.push(v[i]);
        i = i + 1;
        assert(r@ =~= v@.take(i as int));
    }
    assert(v@.take(v@.len() as int) =~= v@);
    r
}

pub(crate) fn is_name_char(c: char) -> (r: bool)
    ensures
        r == name_char(c),
{
    let v: u32 = c as u32;
    (0x61 <= v && v <= 0x7a) || (0x41 <= v && v <= 0x5a) || (0x30 <= v && v <= 0x39) || c == '-' || c == '_'
}

fn read_bounds(spec: &Vec<char>) -> (r: Result<(u32, Option<u32>), GrammarError>)
    ensures
        match r {
            Ok((m, n)) => bounds(spec@) == Ok::<(nat, Option<nat>), GrammarError>(
                (
                    m as nat,
                    match n {
                        Some(x) => Some(x as nat),
                        None => None,
                    },
                ),
            ),
            Err(e) => bounds(spec@) == Err::<(nat, Option<nat>), GrammarError>(e),
        },
{
    let c = find_char(spec, ',', 0);
    if c < spec.len() {
        let a = copy_chars(spec, 0, c);
        let b = copy_chars(spec, c + 1, spec.len());
        assert(a@ =~= spec@.take(c as int));
        assert(b@ =~= spec@.skip(c + 1));
        let lo = trimmed(&a);
        let hi = trimmed(&b);
        match read_number(&lo, 10) {
            None => Err(GrammarError::BadCounts),
            Some(m) => {
                if hi.len() == 0 {
                    Ok((m, None))
                } else {
                    match read_number(&hi, 10) {
                        None => Err(GrammarError::BadCounts),
                        Some(n) => Ok((m, Some(n))),
                    }
                }
            },
        }
    } else {
        let t = trimmed(spec);
        match read_number(&t, 10) {
            None => Err(GrammarError::BadCount),
            Some(n) => Ok((n, Some(n))),
        }
    }
}

/// One character of a literal or a class.
fn read_escaped(s: &Vec<char>, p: usize) -> (r: Result<(u32, usize), GrammarError>)
    requires
        p < s@.len(),
    ensures
        match r {
            Ok((c, q)) => p < q <= s@.len() && escaped(s@, p as int) == Ok::<(u32, int), GrammarError>(
                (c, q as int),
            ),
            Err(e) => escaped(s@, p as int) == Err::<(u32, int), GrammarError>(e),
        },
{
    let n: usize = s.len();
    assert(p < n);
    let c = s[p];
    if c != '\\' {
        return Ok((c as u32, p + 1));
    }
    if p + 1 >= n {
        return Err(GrammarError::TrailingBackslash);
    }
    let e = s[p + 1];
    let q: usize = p + 2;
    if e == 'n' {
        Ok((0x0a, q))
    } else if e == 'r' {
        Ok((0x0d, q))
    } else if e == 't' {
        Ok((0x09, q))
    } else if e == 'x' {
        let t: usize = if s.len() - q < 2 {
            s.len()
        } else {
            q + 2
        };
        let h = copy_chars(s, q, t);
        match read_number(&h, 16) {
            Some(v) => Ok((v, t)),
            None => Err(GrammarError::BadHex),
        }
    } else if e == 'u' {
        let t: usize = if s.len() - q < 4 {
            s.len()
        } else {
            q + 4
        };
        let h = copy_chars(s, q, t);
        match read_number(&h, 16) {
            Some(v) => Ok((v, t)),
            None => Err(GrammarError::BadUnicode),
        }
    } else {
        Ok((e as u32, q))
    }
}

/// A literal from behind its opening quote.
fn read_literal(s: &Vec<char>, p0: usize) -> (r: Result<(Vec<Elem>, usize), GrammarError>)
    requires
        p0 <= s@.len(),
    ensures
        match r {
            Ok((row, q)) => p0 < q <= s@.len() && literal(s@, p0 as int, seq![]) == Ok::<
                (Seq<Elem>, int),
                GrammarError,
            >((row@, q as int)),
            Err(e) => literal(s@, p0 as int, seq![]) == Err::<(Seq<Elem>, int), GrammarError>(e),
        },
{
    let mut out: Vec<Elem> = Vec::new();
    let mut p: usize = p0;
    assert(out@ =~= seq![]);
    while p < s.len() && s[p] != '"'
        invariant
            p0 <= p <= s@.len(),
            literal(s@, p0 as int, seq![]) == literal(s@, p as int, out@),
        decreases s@.len() - p,
    {
        match read_escaped(s, p) {
            Err(e) => {
                return Err(e);
            },
            Ok((c, q)) => {
                out.push(Elem::Char(c));
                p = q;
            },
        }
    }
    if p >= s.len() {
        Err(GrammarError::UnterminatedString)
    } else {
        Ok((out, p + 1))
    }
}

/// A class from behind its opening bracket (and caret).
fn read_class(s: &Vec<char>, p0: usize, neg: bool) -> (r: Result<(Vec<Elem>, usize), GrammarError>)
    requires
        p0 <= s@.len(),
    ensures
        match r {
            Ok((row, q)) => p0 < q <= s@.len() && class(s@, p0 as int, neg, seq![]) == Ok::<
                (Seq<Elem>, int),
                GrammarError,
            >((row@, q as int)),
            Err(e) => class(s@, p0 as int, neg, seq![]) == Err::<(Seq<Elem>, int), GrammarError>(e),
        },
{
    let mut out: Vec<Elem> = Vec::new();
    let mut p: usize = p0;
    assert(out@ =~= seq![]);
    while p < s.len() && s[p] != ']'
        invariant
            p0 <= p <= s@.len(),
            class(s@, p0 as int, neg, seq![]) == class(s@, p as int, neg, out@),
        decreases s@.len() - p,
    {
        let ghost out0 = out@;
        let (lo, q) = match read_escaped(s, p) {
            Err(e) => {
                return Err(e);
            },
            Ok(x) => x,
        };
        let mut hi: u32 = lo;
        let mut t: usize = q;
        if q < s.len() && q + 1 < s.len() && s[q] == '-' && s[q + 1] != ']' {
            match read_escaped(s, q + 1) {
                Err(e) => {
                    return Err(e);
                },
                Ok((h, u)) => {
                    hi = h;
                    t = u;
                },
            }
        }
        if out.len() == 0 {
            out.push(
                if neg {
                    Elem::CharNot(lo)
                } else {
                    Elem::Char(lo)
                },
            );
        } else {
            out.push(Elem::CharAlt(lo));
        }
        if hi != lo {
            out.push(Elem::CharRngUpper(hi));
        }
        assert(out@ =~= out0 + member(out0.len() == 0, neg, lo, hi));
        p = t;
    }
    if p >= s.len() {
        Err(GrammarError::UnterminatedClass)
    } else if out.len() == 0 {
        Err(GrammarError::EmptyClass)
    } else {
        Ok((out, p + 1))
    }
}


/// The definitions of a text.
fn read_definitions(s: &Vec<char>) -> (r: Vec<(Vec<char>, Vec<char>)>)
    ensures
        def_rows(r@) == definitions(s@),
{
    let mut done: Vec<(Vec<char>, Vec<char>)> = Vec::new();
    let mut name: Vec<char> = Vec::new();
    let mut body: Vec<char> = Vec::new();
    let mut p: usize = 0;
    let ghost goal = read_lines(Reading { done: seq![], name: seq![], body: seq![] }, s@, 0);
    assert(def_rows(done@) =~= seq![]);
    assert(name@ =~= seq![]);
    assert(body@ =~= seq![]);
    while p < s.len()
        invariant
            p <= s@.len(),
            goal == read_lines(Reading { done: def_rows(done@), name: name@, body: body@ }, s@, p as int),
        decreases s@.len() - p,
    {
        let ghost before = Reading { done: def_rows(done@), name: name@, body: body@ };
        let q = find_char(s, '\n', p);
        let e: usize = if p < q && q < s.len() && s[q - 1] == '\r' {
            q - 1
        } else {
            q
        };
        let raw = copy_chars(s, p, e);
        let h = find_comment(&raw);
        let line = copy_chars(&raw, 0, h);
        assert(line@ =~= without_comment(raw@));
        let blank = trimmed(&line);
        if blank.len() > 0 {
            let i = find_def(&line);
            if i < line.len() {
                if name.len() > 0 {
                    let ghost done0 = def_rows(done@);
                    let ghost nb = (name@, body@);
                    done.push((name, body));
                    assert(def_rows(done@) =~= done0.push(nb));
                }
                let head = copy_chars(&line, 0, i);
                assert(head@ =~= line@.take(i as int));
                name = trimmed(&head);
                body = copy_chars(&line, i + 3, line.len());
                assert(body@ =~= line@.skip(i + 3));
            } else {
                let ghost body0 = body@;
                body.push(' ');
                let mut tail = line;
                body.append(&mut tail);
                assert(body@ =~= body0.push(' ') + line@);
            }
        }
        let ghost after = Reading { done: def_rows(done@), name: name@, body: body@ };
        assert(after =~= read_line(before, raw@));
        if q < s.len() {
            p = q + 1;
        } else {
            p = s.len();
        }
    }
    if name.len() > 0 {
        let ghost done0 = def_rows(done@);
        let ghost nb = (name@, body@);
        done.push((name, body));
        assert(def_rows(done@) =~= done0.push(nb));
    }
    done
}

/// Names and bodies of definitions, as sequences.
pub open spec fn def_rows(v: Seq<(Vec<char>, Vec<char>)>) -> Seq<(Seq<char>, Seq<char>)> {
    Seq::new(v.len(), |i: int| (v[i].0@, v[i].1@))
}

/// Where the comment of a line begins.
fn find_comment(s: &Vec<char>) -> (r: usize)
    ensures
        r == comment_index(s@, 0, None),
        r <= s@.len(),
{
    let mut p: usize = 0;
    let mut close: Option<char> = None;
    while p < s.len()
        invariant
            comment_index(s@, p as int, close) == comment_index(s@, 0, None),
        decreases s@.len() - p,
    {
        let c = s[p];
        match close {
            Some(e) => {
                if c == e {
                    close = None;
                } else if c == '\\' && s.len() - p >= 2 {
                    p = p + 1;
                }
            },
            None => {
                if c == '#' {
                    return p;
                } else if c == '"' {
                    close = Some('"');
                } else if c == '[' {
                    close = Some(']');
                }
            },
        }
        p = p + 1;
    }
    s.len()
}

/// Where the first `::=` stands.
fn find_def(s: &Vec<char>) -> (r: usize)
    ensures
        r == def_index(s@, 0),
        r <= s@.len(),
        r < s@.len() ==> r + 3 <= s@.len(),
{
    let mut p: usize = 0;
    while s.len() >= 3 && p <= s.len() - 3
        invariant
            p <= s@.len(),
            def_index(s@, p as int) == def_index(s@, 0),
        decreases s@.len() - p,
    {
        if s[p] == ':' && s[p + 1] == ':' && s[p + 2] == '=' {
            return p;
        }
        p = p + 1;
    }
    s.len()
}

impl Grammar {
    /// Compile a grammar's text.
    pub fn read(src: &str) -> (r: Result<Grammar, GrammarError>)
        ensures
            match r {
                Ok(g) => grammar_of(src@) == Ok::<(Seq<Seq<Elem>>, int), GrammarError>(
                    (g.model(), g.root as int),
                ),
                Err(e) => grammar_of(src@) == Err::<(Seq<Seq<Elem>>, int), GrammarError>(e),
            },
    {
        let s = chars_of(src);
        let defs = read_definitions(&s);
        let ghost ds = definitions(s@);
        if defs.len() == 0 {
            return Err(GrammarError::Empty);
        }
        let mut p = Parser { rules: Vec::new(), names: Vec::new() };
        assert(p.draft() =~= named(ds, 0));
        let mut i: usize = 0;
        while i < defs.len()
            invariant
                i <= defs.len(),
                ds == def_rows(defs@),
                p.inv(),
                p.draft() == named(ds, i as int),
            decreases defs.len() - i,
        {
            assert(ds[i as int].0 == defs[i as int].0@);
            let _ = p.intern(&defs[i].0);
            i = i + 1;
        }
        let mut k: usize = 0;
        while k < defs.len()
            invariant
                k <= defs.len(),
                ds == def_rows(defs@),
                ds == definitions(src@),
                ds.len() > 0,
                p.inv(),
                compiled(ds, k as int) == Ok::<Draft, GrammarError>(p.draft()),
            decreases defs.len() - k,
        {
            assert(ds[k as int].0 == defs[k as int].0@);
            assert(ds[k as int].1 == defs[k as int].1@);
            let id = p.intern(&defs[k].0);
            match p.parse_alternates(&defs[k].1, 0, false) {
                Err(e) => {
                    assert(compiled(ds, k + 1) == Err::<Draft, GrammarError>(e));
                    proof {
                        lemma_compiled_err(ds, k + 1, e);
                    }
                    return Err(e);
                },
                Ok((row, _)) => {
                    p.define(id, row);
                },
            }
            k = k + 1;
        }
        let root_name: Vec<char> = vec!['r', 'o', 'o', 't'];
        assert(root_name@ =~= seq!['r', 'o', 'o', 't']);
        match find_name(&p.names, &root_name) {
            None => Err(GrammarError::NoRoot),
            Some(root) => Ok(Grammar { rules: p.rules, root }),
        }
    }
}

proof fn lemma_compiled_err(defs: Seq<(Seq<char>, Seq<char>)>, n: int, e: GrammarError)
    requires
        0 <= n <= defs.len(),
        compiled(defs, n) == Err::<Draft, GrammarError>(e),
    ensures
        compiled(defs, defs.len() as int) == Err::<Draft, GrammarError>(e),
    decreases defs.len() - n,
{
    if n < defs.len() {
        lemma_compiled_err(defs, n + 1, e);
    }
}

/// What `{:?}` makes of a character.
pub uninterp spec fn char_debug(c: char) -> Seq<char>;

/// `format!` with the `Debug` form of a character: a text that depends on it alone.
#[verifier::external_body]
fn debug_text(c: char) -> (r: String)
    ensures
        r@ == char_debug(c),
{
    format!("{c:?}")
}

/// The message for an error.
pub open spec fn error_text(e: GrammarError) -> Seq<char> {
    match e {
        GrammarError::Empty => "empty grammar"@,
        GrammarError::NoRoot => "grammar has no `root` rule"@,
        GrammarError::UnmatchedParen => "unmatched )"@,
        GrammarError::MissingParen => "missing )"@,
        GrammarError::UnterminatedString => "unterminated string"@,
        GrammarError::UnterminatedClass => "unterminated char class"@,
        GrammarError::EmptyClass => "empty char class"@,
        GrammarError::Unexpected(c) => "unexpected char "@ + char_debug(c) + " in grammar"@,
        GrammarError::TrailingBackslash => "trailing backslash"@,
        GrammarError::BadHex => "bad \\x"@,
        GrammarError::BadUnicode => "bad \\u"@,
        GrammarError::BadCounts => "bad {m,n}"@,
        GrammarError::BadCount => "bad {n}"@,
    }
}

impl GrammarError {
    /// The message for the error.
    pub fn message(&self) -> (r: String)
        ensures
            r@ == error_text(*self),
    {
        match self {
            GrammarError::Empty => "empty grammar".to_owned(),
            GrammarError::NoRoot => "grammar has no `root` rule".to_owned(),
            GrammarError::UnmatchedParen => "unmatched )".to_owned(),
            GrammarError::MissingParen => "missing )".to_owned(),
            GrammarError::UnterminatedString => "unterminated string".to_owned(),
            GrammarError::UnterminatedClass => "unterminated char class".to_owned(),
            GrammarError::EmptyClass => "empty char class".to_owned(),
            GrammarError::Unexpected(c) => {
                let shown = debug_text(*c);
                let mut t: Vec<char> = chars_of("unexpected char ");
                push_text(&mut t, shown.as_str());
                push_text(&mut t, " in grammar");
                string_of(&t)
            },
            GrammarError::TrailingBackslash => "trailing backslash".to_owned(),
            GrammarError::BadHex => "bad \\x".to_owned(),
            GrammarError::BadUnicode => "bad \\u".to_owned(),
            GrammarError::BadCounts => "bad {m,n}".to_owned(),
            GrammarError::BadCount => "bad {n}".to_owned(),
        }
    }
}

/// Compile a grammar's text; an error comes as its message.
pub fn parse(src: &str) -> (r: Result<Grammar, String>)
    ensures
        match r {
            Ok(g) => grammar_of(src@) == Ok::<(Seq<Seq<Elem>>, int), GrammarError>(
                (g.model(), g.root as int),
            ),
            Err(m) => exists|e: GrammarError|
                grammar_of(src@) == Err::<(Seq<Seq<Elem>>, int), GrammarError>(e) && m@ == #[trigger] error_text(
                    e,
                ),
        },
{
    match Grammar::read(src) {
        Ok(g) => Ok(g),
        Err(e) => {
            let m = e.message();
            assert(m@ == error_text(e));
            Err(m)
        },
    }
}

} // verus!
