//! What a grammar's text means: the rules that it compiles to.
use vstd::prelude::*;
use crate::filter::automaton::Elem;
use crate::text::{decimal, index_of, number, skip_white, trim};

verus! {

/// Why a grammar's text is refused.
#[derive(Clone, Copy, Debug, PartialEq, Eq, Structural)]
pub enum GrammarError {
    Empty,
    NoRoot,
    UnmatchedParen,
    MissingParen,
    UnterminatedString,
    UnterminatedClass,
    EmptyClass,
    Unexpected(char),
    TrailingBackslash,
    BadHex,
    BadUnicode,
    BadCounts,
    BadCount,
}

/// The rules compiled so far and their names, in step.
#[verifier::ext_equal]
pub struct Draft {
    pub names: Seq<Seq<char>>,
    pub rules: Seq<Seq<Elem>>,
}

/// Where `name` stands in `names`; -1 where it does not.
pub open spec fn name_index(names: Seq<Seq<char>>, name: Seq<char>) -> int
    decreases names.len(),
{
    if names.len() == 0 {
        -1
    } else {
        let p = name_index(names.drop_last(), name);
        if p >= 0 {
            p
        } else if names.last() == name {
            names.len() - 1
        } else {
            -1
        }
    }
}

/// The rule called `name`, made (undefined) where there is none.
pub open spec fn interned(d: Draft, name: Seq<char>) -> (Draft, int) {
    let p = name_index(d.names, name);
    if p >= 0 {
        (d, p)
    } else {
        (Draft { names: d.names.push(name), rules: d.rules.push(seq![]) }, d.names.len() as int)
    }
}

pub open spec fn defined(d: Draft, id: int, rule: Seq<Elem>) -> Draft {
    Draft { names: d.names, rules: d.rules.update(id, rule) }
}

/// The name of the next helper rule.
pub open spec fn helper_name(kind: char, d: Draft) -> Seq<char> {
    seq!['_', '_', kind] + decimal(d.rules.len())
}

/// A new helper rule.
pub open spec fn with_rule(d: Draft, rule: Seq<Elem>) -> (Draft, int) {
    let (e, id) = interned(d, helper_name('r', d));
    (defined(e, id, rule), id)
}

pub open spec fn rule_ref(id: int) -> Elem {
    Elem::RuleRef(id as usize)
}

/// `atom*`, `atom+` or `atom?` as a rule.
pub open spec fn repeated(d: Draft, atom: Seq<Elem>, op: char) -> (Draft, int) {
    let (d1, sub) = with_rule(d, atom.push(Elem::End));
    if op == '?' {
        with_rule(d1, seq![rule_ref(sub), Elem::Alt, Elem::End])
    } else if op == '*' {
        let (d2, id) = interned(d1, helper_name('r', d1));
        (defined(d2, id, seq![rule_ref(sub), rule_ref(id), Elem::Alt, Elem::End]), id)
    } else {
        let (d2, id) = interned(d1, helper_name('r', d1));
        let (d3, star) = interned(d2, helper_name('s', d2));
        let d4 = defined(d3, star, seq![rule_ref(sub), rule_ref(star), Elem::Alt, Elem::End]);
        (defined(d4, id, seq![rule_ref(sub), rule_ref(star), Elem::End]), id)
    }
}

/// `n` references to rule `id`.
pub open spec fn copies(id: int, n: nat) -> Seq<Elem> {
    Seq::new(n, |i: int| rule_ref(id))
}

/// `n` new rules, each an optional `sub`, and references to them behind `out`.
pub open spec fn optional(d: Draft, out: Seq<Elem>, sub: int, n: nat) -> (Draft, Seq<Elem>)
    decreases n,
{
    if n == 0 {
        (d, out)
    } else {
        let (d1, out1) = optional(d, out, sub, (n - 1) as nat);
        let (d2, id) = with_rule(d1, seq![rule_ref(sub), Elem::Alt, Elem::End]);
        (d2, out1.push(rule_ref(id)))
    }
}

/// The bounds that `{..}` gives: how many at least, how many at most.
pub open spec fn bounds(spec: Seq<char>) -> Result<(nat, Option<nat>), GrammarError> {
    let c = index_of(spec, ',', 0);
    if c < spec.len() {
        let hi = trim(spec.skip(c + 1));
        match number(trim(spec.take(c)), 10) {
            None => Err(GrammarError::BadCounts),
            Some(m) => if hi.len() == 0 {
                Ok((m, None))
            } else {
                match number(hi, 10) {
                    None => Err(GrammarError::BadCounts),
                    Some(n) => Ok((m, Some(n))),
                }
            },
        }
    } else {
        match number(trim(spec), 10) {
            None => Err(GrammarError::BadCount),
            Some(n) => Ok((n, Some(n))),
        }
    }
}

/// `atom{..}` as a rule.
pub open spec fn counted(d: Draft, atom: Seq<Elem>, spec: Seq<char>) -> Result<
    (Draft, int),
    GrammarError,
> {
    match bounds(spec) {
        Err(e) => Err(e),
        Ok((min, max)) => {
            let (d1, sub) = with_rule(d, atom.push(Elem::End));
            let (d2, row) = match max {
                Some(mx) => optional(
                    d1,
                    copies(sub, min),
                    sub,
                    if mx > min {
                        (mx - min) as nat
                    } else {
                        0
                    },
                ),
                None => {
                    let (d2, star) = repeated(d1, atom, '*');
                    (d2, copies(sub, min).push(rule_ref(star)))
                },
            };
            Ok(with_rule(d2, row.push(Elem::End)))
        },
    }
}

/// The place `n` characters on, or the end of `s`.
pub open spec fn ahead(s: Seq<char>, p: int, n: int) -> int {
    if p + n <= s.len() {
        p + n
    } else {
        s.len() as int
    }
}

/// One character of a literal or a class, escapes resolved, and the place behind it.
pub open spec fn escaped(s: Seq<char>, p: int) -> Result<(u32, int), GrammarError> {
    if s[p] != '\\' {
        Ok((s[p] as u32, p + 1))
    } else if p + 1 >= s.len() {
        Err(GrammarError::TrailingBackslash)
    } else {
        let e = s[p + 1];
        let q = p + 2;
        if e == 'n' {
            Ok(('\n' as u32, q))
        } else if e == 'r' {
            Ok(('\r' as u32, q))
        } else if e == 't' {
            Ok(('\t' as u32, q))
        } else if e == 'x' {
            match number(s.subrange(q, ahead(s, q, 2)), 16) {
                Some(v) => Ok((v as u32, ahead(s, q, 2))),
                None => Err(GrammarError::BadHex),
            }
        } else if e == 'u' {
            match number(s.subrange(q, ahead(s, q, 4)), 16) {
                Some(v) => Ok((v as u32, ahead(s, q, 4))),
                None => Err(GrammarError::BadUnicode),
            }
        } else {
            Ok((e as u32, q))
        }
    }
}

/// The characters of a literal up to its closing quote, behind `out`, and the place
/// behind the quote.
pub open spec fn literal(s: Seq<char>, p: int, out: Seq<Elem>) -> Result<
    (Seq<Elem>, int),
    GrammarError,
>
    decreases s.len() - p,
{
    if !(0 <= p < s.len()) {
        Err(GrammarError::UnterminatedString)
    } else if s[p] == '"' {
        Ok((out, p + 1))
    } else {
        match escaped(s, p) {
            Err(e) => Err(e),
            Ok((c, q)) => if q > p {
                literal(s, q, out.push(Elem::Char(c)))
            } else {
                Err(GrammarError::UnterminatedString)
            },
        }
    }
}

/// The first element of a character set.
pub open spec fn set_head(neg: bool, c: u32) -> Elem {
    if neg {
        Elem::CharNot(c)
    } else {
        Elem::Char(c)
    }
}

/// A member of a character set as elements.
pub open spec fn member(first: bool, neg: bool, lo: u32, hi: u32) -> Seq<Elem> {
    let head = if first {
        set_head(neg, lo)
    } else {
        Elem::CharAlt(lo)
    };
    if hi != lo {
        seq![head, Elem::CharRngUpper(hi)]
    } else {
        seq![head]
    }
}

/// The members of a class up to its closing bracket, behind `out`, and the place behind
/// the bracket.
pub open spec fn class(s: Seq<char>, p: int, neg: bool, out: Seq<Elem>) -> Result<
    (Seq<Elem>, int),
    GrammarError,
>
    decreases s.len() - p,
{
    if !(0 <= p < s.len()) {
        Err(GrammarError::UnterminatedClass)
    } else if s[p] == ']' {
        if out.len() == 0 {
            Err(GrammarError::EmptyClass)
        } else {
            Ok((out, p + 1))
        }
    } else {
        match escaped(s, p) {
            Err(e) => Err(e),
            Ok((lo, q)) => if q + 1 < s.len() && s[q] == '-' && s[q + 1] != ']' {
                match escaped(s, q + 1) {
                    Err(e) => Err(e),
                    Ok((hi, t)) => if t > p {
                        class(s, t, neg, out + member(out.len() == 0, neg, lo, hi))
                    } else {
                        Err(GrammarError::UnterminatedClass)
                    },
                }
            } else if q > p {
                class(s, q, neg, out + member(out.len() == 0, neg, lo, lo))
            } else {
                Err(GrammarError::UnterminatedClass)
            },
        }
    }
}

/// The characters of a rule's name.
pub open spec fn name_char(c: char) -> bool {
    ||| 'a' <= c <= 'z'
    ||| 'A' <= c <= 'Z'
    ||| '0' <= c <= '9'
    ||| c == '-'
    ||| c == '_'
}

/// Where the name that begins at `p` ends.
pub open spec fn name_end(s: Seq<char>, p: int) -> int
    decreases s.len() - p,
{
    if 0 <= p < s.len() && name_char(s[p]) {
        name_end(s, p + 1)
    } else {
        p
    }
}

/// The atom that begins at `p`: the draft, the atom's elements and the place behind it.
pub open spec fn atom(d: Draft, s: Seq<char>, p: int) -> Result<
    (Draft, Seq<Elem>, int),
    GrammarError,
>
    decreases s.len() - p, 0nat,
{
    let c = s[p];
    if c == '"' {
        match literal(s, p + 1, seq![]) {
            Err(e) => Err(e),
            Ok((row, q)) => Ok((d, row, q)),
        }
    } else if c == '[' {
        let neg = p + 1 < s.len() && s[p + 1] == '^';
        match class(
            s,
            if neg {
                p + 2
            } else {
                p + 1
            },
            neg,
            seq![],
        ) {
            Err(e) => Err(e),
            Ok((row, q)) => Ok((d, row, q)),
        }
    } else if c == '.' {
        Ok((d, seq![Elem::CharNot(0), Elem::CharRngUpper(0)], p + 1))
    } else if c == '(' {
        if !(p < s.len()) {
            Err(GrammarError::MissingParen)
        } else {
            match alternates(d, seq![], s, p + 1, true) {
                Err(e) => Err(e),
                Ok((d1, row, q)) => {
                    let t = skip_white(s, q);
                    if t >= s.len() || s[t] != ')' {
                        Err(GrammarError::MissingParen)
                    } else {
                        let (d2, id) = with_rule(d1, row);
                        Ok((d2, seq![rule_ref(id)], t + 1))
                    }
                },
            }
        }
    } else if name_char(c) {
        let q = name_end(s, p);
        let (d1, id) = interned(d, s.subrange(p, q));
        Ok((d1, seq![rule_ref(id)], q))
    } else {
        Err(GrammarError::Unexpected(c))
    }
}

/// An atom with the repetition that stands at `p`, if one does.
pub open spec fn postfix(d: Draft, row: Seq<Elem>, s: Seq<char>, p: int) -> Result<
    (Draft, Seq<Elem>, int),
    GrammarError,
> {
    if p < s.len() && (s[p] == '*' || s[p] == '+' || s[p] == '?') {
        let (d1, id) = repeated(d, row, s[p]);
        Ok((d1, seq![rule_ref(id)], p + 1))
    } else if p < s.len() && s[p] == '{' {
        let q = index_of(s, '}', p + 1);
        match counted(d, row, s.subrange(p + 1, q)) {
            Err(e) => Err(e),
            Ok((d1, id)) => Ok((d1, seq![rule_ref(id)], ahead(s, q, 1))),
        }
    } else {
        Ok((d, row, p))
    }
}

/// The atoms of one alternate from `p` on, behind `out`, and the place where it ends.
pub open spec fn sequence(
    d: Draft,
    out: Seq<Elem>,
    s: Seq<char>,
    p0: int,
    in_group: bool,
) -> Result<(Draft, Seq<Elem>, int), GrammarError>
    decreases s.len() - p0, 1nat,
{
    let p = skip_white(s, p0);
    if !(0 <= p0 <= p < s.len()) || s[p] == '|' {
        Ok((d, out, p))
    } else if s[p] == ')' {
        if in_group {
            Ok((d, out, p))
        } else {
            Err(GrammarError::UnmatchedParen)
        }
    } else {
        match atom(d, s, p) {
            Err(e) => Err(e),
            Ok((d1, row, q)) => match postfix(d1, row, s, skip_white(s, q)) {
                Err(e) => Err(e),
                Ok((d2, row2, t)) => if p0 < t <= s.len() {
                    sequence(d2, out + row2, s, t, in_group)
                } else {
                    Ok((d2, out + row2, t))
                },
            },
        }
    }
}

/// The alternates from `p` on, behind `out`, as one row, and the place where they end.
pub open spec fn alternates(
    d: Draft,
    out: Seq<Elem>,
    s: Seq<char>,
    p: int,
    in_group: bool,
) -> Result<(Draft, Seq<Elem>, int), GrammarError>
    decreases s.len() - p, 2nat,
{
    match sequence(d, seq![], s, p, in_group) {
        Err(e) => Err(e),
        Ok((d1, row, q0)) => {
            let q = skip_white(s, q0);
            if 0 <= p <= q < s.len() && s[q] == '|' {
                alternates(d1, (out + row).push(Elem::Alt), s, q + 1, in_group)
            } else {
                Ok((d1, (out + row).push(Elem::End), q))
            }
        },
    }
}

/// The text before the first line end, without it; a line ends at a line feed, and a
/// carriage return just before that belongs to the line end.
pub open spec fn line_end(s: Seq<char>, p: int) -> int {
    let q = index_of(s, '\n', p);
    if p < q < s.len() && s[q - 1] == '\r' {
        q - 1
    } else {
        q
    }
}

/// Where the first `#` at or after `p` stands that begins a comment; the end of `s` where none
/// does. `close` is the character that ends the literal or the class around `p`, where there is
/// one: in these no comment begins, and a backslash takes the next character with it.
pub open spec fn comment_index(s: Seq<char>, p: int, close: Option<char>) -> int
    decreases s.len() - p,
{
    if !(0 <= p < s.len()) {
        s.len() as int
    } else {
        match close {
            Some(c) => if s[p] == c {
                comment_index(s, p + 1, None)
            } else if s[p] == '\\' && p + 1 < s.len() {
                comment_index(s, p + 2, close)
            } else {
                comment_index(s, p + 1, close)
            },
            None => if s[p] == '#' {
                p
            } else if s[p] == '"' {
                comment_index(s, p + 1, Some('"'))
            } else if s[p] == '[' {
                comment_index(s, p + 1, Some(']'))
            } else {
                comment_index(s, p + 1, None)
            },
        }
    }
}

/// `s` without its comment.
pub open spec fn without_comment(s: Seq<char>) -> Seq<char> {
    s.take(comment_index(s, 0, None))
}

/// Where the first `::=` at or after `p` stands; the end of `s` where there is none.
pub open spec fn def_index(s: Seq<char>, p: int) -> int
    decreases s.len() - p,
{
    if p < 0 || p + 3 > s.len() {
        s.len() as int
    } else if s[p] == ':' && s[p + 1] == ':' && s[p + 2] == '=' {
        p
    } else {
        def_index(s, p + 1)
    }
}

/// The definitions read so far, and the name and the body of the one at hand.
#[verifier::ext_equal]
pub struct Reading {
    pub done: Seq<(Seq<char>, Seq<char>)>,
    pub name: Seq<char>,
    pub body: Seq<char>,
}

/// The definitions with the one at hand, where it has a name.
pub open spec fn finished(r: Reading) -> Seq<(Seq<char>, Seq<char>)> {
    if r.name.len() > 0 {
        r.done.push((r.name, r.body))
    } else {
        r.done
    }
}

/// One more line of the text: a definition, or the continuation of the one at hand.
pub open spec fn read_line(r: Reading, raw: Seq<char>) -> Reading {
    let line = without_comment(raw);
    let i = def_index(line, 0);
    if trim(line).len() == 0 {
        r
    } else if i < line.len() {
        Reading { done: finished(r), name: trim(line.take(i)), body: line.skip(i + 3) }
    } else {
        Reading { done: r.done, name: r.name, body: r.body.push(' ') + line }
    }
}

/// The lines of `s` from `p` on.
pub open spec fn read_lines(r: Reading, s: Seq<char>, p: int) -> Reading
    decreases s.len() - p,
{
    if !(0 <= p < s.len()) {
        r
    } else {
        let q = index_of(s, '\n', p);
        let r1 = read_line(r, s.subrange(p, line_end(s, p)));
        if q < p || q >= s.len() {
            r1
        } else {
            read_lines(r1, s, q + 1)
        }
    }
}

/// The definitions of a text: names and bodies.
pub open spec fn definitions(s: Seq<char>) -> Seq<(Seq<char>, Seq<char>)> {
    finished(read_lines(Reading { done: seq![], name: seq![], body: seq![] }, s, 0))
}

/// The names of the first `n` definitions, interned.
pub open spec fn named(defs: Seq<(Seq<char>, Seq<char>)>, n: int) -> Draft
    decreases n,
{
    if n <= 0 {
        Draft { names: seq![], rules: seq![] }
    } else {
        interned(named(defs, n - 1), defs[n - 1].0).0
    }
}

/// The first `n` definitions compiled.
pub open spec fn compiled(defs: Seq<(Seq<char>, Seq<char>)>, n: int) -> Result<Draft, GrammarError>
    decreases n,
{
    if n <= 0 {
        Ok(named(defs, defs.len() as int))
    } else {
        match compiled(defs, n - 1) {
            Err(e) => Err(e),
            Ok(d) => {
                let (d1, id) = interned(d, defs[n - 1].0);
                match alternates(d1, seq![], defs[n - 1].1, 0, false) {
                    Err(e) => Err(e),
                    Ok((d2, row, _)) => Ok(defined(d2, id, row)),
                }
            },
        }
    }
}

/// The rules of a text and the number of the rule called `root`.
pub open spec fn grammar_of(s: Seq<char>) -> Result<(Seq<Seq<Elem>>, int), GrammarError> {
    let defs = definitions(s);
    if defs.len() == 0 {
        Err(GrammarError::Empty)
    } else {
        match compiled(defs, defs.len() as int) {
            Err(e) => Err(e),
            Ok(d) => {
                let root = name_index(d.names, seq!['r', 'o', 'o', 't']);
                if root >= 0 {
                    Ok((d.rules, root))
                } else {
                    Err(GrammarError::NoRoot)
                }
            },
        }
    }
}

} // verus!
