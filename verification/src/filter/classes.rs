//! What a character class reads, and what an escape stands for.
use vstd::prelude::*;
use crate::filter::automaton::{ranged, set_end, set_has, tail_end, tail_has, Elem};
use crate::filter::json_schema::lemma_codes_differ;
use crate::filter::spans::spans;
use crate::filter::syntax::{atom, class, escaped, member, set_head, Draft, GrammarError};
use crate::text::{digit_value, digits_value, number, unsigned};

verus! {

/// A character that stands for itself in a class, whatever its place.
pub open spec fn plain(c: char) -> bool {
    c != '\\' && c != ']' && c != '-' && c != '^' && c as u32 != 0
}

/// A range as it is written: one character, or two with a dash between them.
pub open spec fn range_text(r: (char, char)) -> Seq<char> {
    if r.0 == r.1 {
        seq![r.0]
    } else {
        seq![r.0, '-', r.1]
    }
}

/// Ranges as they are written.
pub open spec fn ranges_text(v: Seq<(char, char)>) -> Seq<char>
    decreases v.len(),
{
    if v.len() == 0 {
        seq![]
    } else {
        range_text(v[0]) + ranges_text(v.drop_first())
    }
}

/// Whether one of some ranges holds a character, by its code.
pub open spec fn covers(v: Seq<(char, char)>, c: u32) -> bool {
    exists|i: int| 0 <= i < v.len() && (#[trigger] v[i]).0 as u32 <= c <= v[i].1 as u32
}

/// Whether ranges are made of characters that stand for themselves.
pub open spec fn plain_all(v: Seq<(char, char)>) -> bool {
    forall|i: int| 0 <= i < v.len() ==> plain((#[trigger] v[i]).0) && plain(v[i].1)
}

/// The elements of ranges.
pub open spec fn elems_of(v: Seq<(char, char)>, first: bool, neg: bool) -> Seq<Elem>
    decreases v.len(),
{
    if v.len() == 0 {
        seq![]
    } else {
        member(first, neg, v[0].0 as u32, v[0].1 as u32) + elems_of(v.drop_first(), false, neg)
    }
}

proof fn lemma_class_reads(s: Seq<char>, p: int, neg: bool, out: Seq<Elem>, v: Seq<(char, char)>)
    requires
        plain_all(v),
        0 <= p,
        p + ranges_text(v).len() < s.len(),
        s.subrange(p, p + ranges_text(v).len()) == ranges_text(v),
        s[p + ranges_text(v).len()] == ']',
        out.len() + v.len() > 0,
    ensures
        class(s, p, neg, out) == Ok::<(Seq<Elem>, int), GrammarError>(
            (out + elems_of(v, out.len() == 0, neg), p + ranges_text(v).len() + 1),
        ),
    decreases v.len(),
{
    let t = ranges_text(v);
    let e = p + t.len();
    if v.len() == 0 {
        assert(out + elems_of(v, out.len() == 0, neg) =~= out);
    } else {
        let r = v[0];
        let rest = v.drop_first();
        let w = range_text(r);
        assert(plain(r.0) && plain(r.1));
        assert forall|i: int| 0 <= i < t.len() implies s[p + i] == #[trigger] t[i] by {
            assert(s.subrange(p, e)[i] == t[i]);
        }
        assert(t[0] == r.0);
        assert(s[p] == r.0);
        let q = p + w.len();
        assert(s.subrange(q, q + ranges_text(rest).len()) =~= ranges_text(rest)) by {
            assert forall|i: int| 0 <= i < ranges_text(rest).len() implies s[q + i] == #[trigger] ranges_text(rest)[i] by {
                assert(t[w.len() + i] == ranges_text(rest)[i]);
            }
        }
        assert forall|i: int| 0 <= i < rest.len() implies plain((#[trigger] rest[i]).0) && plain(rest[i].1) by {
            assert(rest[i] == v[i + 1]);
        }
        assert(escaped(s, p) == Ok::<(u32, int), GrammarError>((r.0 as u32, p + 1)));
        let m = member(out.len() == 0, neg, r.0 as u32, r.1 as u32);
        let out1 = out + m;
        assert(out1.len() > 0);
        lemma_class_reads(s, q, neg, out1, rest);
        assert(out1 + elems_of(rest, false, neg) =~= out + elems_of(v, out.len() == 0, neg));
        if r.0 == r.1 {
            assert(s[p + 1] != '-') by {
                if rest.len() > 0 {
                    assert(plain(rest[0].0));
                    assert(ranges_text(rest)[0] == rest[0].0);
                    assert(t[1] == ranges_text(rest)[0]);
                    assert(s[p + 1] == t[1]);
                } else {
                    assert(p + 1 == e);
                }
            }
        } else {
            assert(t[1] == '-' && t[2] == r.1);
            assert(s[p + 1] == t[1] && s[p + 2] == t[2]);
            assert(escaped(s, p + 2) == Ok::<(u32, int), GrammarError>((r.1 as u32, p + 3)));
            lemma_codes_differ(r.0, r.1);
        }
    }
}

proof fn lemma_elems(v: Seq<(char, char)>, first: bool, neg: bool)
    ensures
        v.len() > 0 ==> elems_of(v, first, neg).len() > 0,
        v.len() > 0 && !first ==> elems_of(v, first, neg)[0] == Elem::CharAlt(v[0].0 as u32),
        v.len() == 0 ==> elems_of(v, first, neg).len() == 0,
{
}

/// The further members of a set are its further ranges.
proof fn lemma_tail(a: Seq<Elem>, i: int, v: Seq<(char, char)>, neg: bool, c: u32)
    requires
        0 <= i,
        i + elems_of(v, false, neg).len() + 1 == a.len(),
        a.subrange(i, i + elems_of(v, false, neg).len()) == elems_of(v, false, neg),
        a.last() == Elem::End,
    ensures
        tail_end(a, i) == i + elems_of(v, false, neg).len(),
        tail_has(a, i, c) <==> covers(v, c),
    decreases v.len(),
{
    let w = elems_of(v, false, neg);
    assert forall|k: int| 0 <= k < w.len() implies a[i + k] == #[trigger] w[k] by {
        assert(a.subrange(i, i + w.len())[k] == w[k]);
    }
    assert(a[i + w.len()] == Elem::End);
    if v.len() > 0 {
        let r = v[0];
        let rest = v.drop_first();
        let z = elems_of(rest, false, neg);
        let m = member(false, neg, r.0 as u32, r.1 as u32);
        let n = m.len() as int;
        assert(w == m + z);
        assert(w[0] == Elem::CharAlt(r.0 as u32));
        assert(a[i + 0] == w[0]);
        lemma_elems(rest, false, neg);
        if n == 2 {
            assert(w[1] == Elem::CharRngUpper(r.1 as u32));
            assert(a[i + 1] == w[1]);
        } else if z.len() > 0 {
            assert(w[1] == z[0]);
            assert(a[i + 1] == w[1]);
        } else {
            assert(a[i + 1] == Elem::End);
        }
        assert(a.subrange(i + n, i + n + z.len()) =~= z) by {
            assert forall|k: int| 0 <= k < z.len() implies a[i + n + k] == #[trigger] z[k] by {
                assert(w[n + k] == z[k]);
                assert(a[i + (n + k)] == w[n + k]);
            }
        }
        lemma_tail(a, i + n, rest, neg, c);
        lemma_covers(v, c);
    } else {
        assert(!covers(v, c));
    }
}

proof fn lemma_covers(v: Seq<(char, char)>, c: u32)
    requires
        v.len() > 0,
    ensures
        covers(v, c) <==> (v[0].0 as u32 <= c <= v[0].1 as u32 || covers(v.drop_first(), c)),
{
    let rest = v.drop_first();
    if covers(v, c) {
        let i = choose|i: int| 0 <= i < v.len() && (#[trigger] v[i]).0 as u32 <= c <= v[i].1 as u32;
        if i > 0 {
            assert(rest[i - 1] == v[i]);
        }
    }
    if covers(rest, c) {
        let i = choose|i: int| 0 <= i < rest.len() && (#[trigger] rest[i]).0 as u32 <= c <= rest[i].1 as u32;
        assert(v[i + 1] == rest[i]);
    }
}

/// The class as it is written: brackets around its ranges, behind a caret where it is negated.
pub open spec fn class_text(v: Seq<(char, char)>, neg: bool) -> Seq<char> {
    if neg {
        seq!['[', '^'] + ranges_text(v) + seq![']']
    } else {
        seq!['['] + ranges_text(v) + seq![']']
    }
}

/// Where the parts of a class stand.
proof fn lemma_class_place(s: Seq<char>, p: int, w: Seq<char>, neg: bool)
    requires
        0 <= p,
        w.len() > 0,
        w[0] != '^',
        ({
            let t = if neg {
                seq!['[', '^'] + w + seq![']']
            } else {
                seq!['['] + w + seq![']']
            };
            p + t.len() <= s.len() && s.subrange(p, p + t.len()) == t
        }),
    ensures
        ({
            let b: int = if neg {
                2
            } else {
                1
            };
            &&& s[p] == '['
            &&& (s[p + 1] == '^') == neg
            &&& p + b + w.len() < s.len()
            &&& s.subrange(p + b, p + b + w.len()) == w
            &&& s[p + b + w.len()] == ']'
        }),
{
    let t = if neg {
        seq!['[', '^'] + w + seq![']']
    } else {
        seq!['['] + w + seq![']']
    };
    let b: int = if neg {
        2
    } else {
        1
    };
    let u = s.subrange(p, p + t.len());
    assert(u[0] == t[0] && u[1] == t[1]);
    assert(t[1] == if neg {
        '^'
    } else {
        w[0]
    });
    assert(u[b + w.len()] == t[b + w.len()]);
    assert(s.subrange(p + b, p + b + w.len()) =~= w) by {
        assert forall|i: int| 0 <= i < w.len() implies s[p + b + i] == #[trigger] w[i] by {
            assert(u[b + i] == t[b + i]);
        }
    }
}

/// A class is read as the elements of its ranges.
pub proof fn lemma_class_atom(d: Draft, s: Seq<char>, p: int, v: Seq<(char, char)>, neg: bool)
    requires
        v.len() > 0,
        plain_all(v),
        0 <= p,
        p + class_text(v, neg).len() <= s.len(),
        s.subrange(p, p + class_text(v, neg).len()) == class_text(v, neg),
    ensures
        atom(d, s, p) == Ok::<(Draft, Seq<Elem>, int), GrammarError>(
            (d, elems_of(v, true, neg), p + class_text(v, neg).len()),
        ),
{
    let w = ranges_text(v);
    assert(plain(v[0].0));
    assert(w.len() > 0 && w[0] == v[0].0);
    lemma_class_place(s, p, w, neg);
    let b: int = if neg {
        2
    } else {
        1
    };
    lemma_class_reads(s, p + b, neg, seq![], v);
    let row = elems_of(v, true, neg);
    let none: Seq<Elem> = seq![];
    assert(none + row =~= row);
    assert(class(s, p + b, neg, none) == Ok::<(Seq<Elem>, int), GrammarError>((row, p + b + w.len() + 1)));
    assert(class_text(v, neg).len() == b + w.len() + 1);
    lemma_bracket(d, s, p, neg, row, p + b + w.len() + 1);
}

proof fn lemma_bracket(d: Draft, s: Seq<char>, p: int, neg: bool, row: Seq<Elem>, q: int)
    requires
        0 <= p,
        p + 1 < s.len(),
        s[p] == '[',
        (s[p + 1] == '^') == neg,
        class(
            s,
            if neg {
                p + 2
            } else {
                p + 1
            },
            neg,
            seq![],
        ) == Ok::<(Seq<Elem>, int), GrammarError>((row, q)),
    ensures
        atom(d, s, p) == Ok::<(Draft, Seq<Elem>, int), GrammarError>((d, row, q)),
{
}

pub proof fn lemma_ranges_span(v: Seq<(char, char)>, neg: bool, rs: Seq<Seq<Elem>>, text: Seq<u32>)
    requires
        v.len() > 0,
        plain_all(v),
    ensures
        spans(rs, elems_of(v, true, neg), text) <==> text.len() == 1 && (covers(v, text[0]) != neg),
{
    let row = elems_of(v, true, neg);
    let c = if text.len() > 0 {
        text[0]
    } else {
        0
    };
    lemma_set_of_ranges(v, neg, c);
    let q = set_end(row.push(Elem::End), 0);
    assert(row.skip(q) =~= seq![]);
    if text.len() > 0 {
        assert(spans(rs, row.skip(q), text.drop_first()) <==> text.drop_first().len() == 0);
    }
}

/// A class reads exactly the texts of one character that one of its ranges holds, both ends
/// with it; a negated class those of one character that none of them holds.
pub proof fn classes_read_one_of_their_characters(
    d: Draft,
    s: Seq<char>,
    p: int,
    v: Seq<(char, char)>,
    neg: bool,
    rs: Seq<Seq<Elem>>,
    text: Seq<u32>,
)
    requires
        v.len() > 0,
        plain_all(v),
        0 <= p,
        p + class_text(v, neg).len() <= s.len(),
        s.subrange(p, p + class_text(v, neg).len()) == class_text(v, neg),
    ensures
        atom(d, s, p) matches Ok((e, row, q)) && e == d && q == p + class_text(v, neg).len() && (spans(rs, row, text)
            <==> text.len() == 1 && (covers(v, text[0]) != neg)),
{
    lemma_class_atom(d, s, p, v, neg);
    lemma_ranges_span(v, neg, rs, text);
}

proof fn lemma_set_of_ranges(v: Seq<(char, char)>, neg: bool, c: u32)
    requires
        v.len() > 0,
        plain_all(v),
    ensures
        ({
            let row = elems_of(v, true, neg);
            let a = row.push(Elem::End);
            &&& row.len() > 0
            &&& row[0] == set_head(neg, v[0].0 as u32)
            &&& set_end(a, 0) == row.len()
            &&& set_has(a, 0, c) <==> covers(v, c) != neg
        }),
{
    let row = elems_of(v, true, neg);
    let a = row.push(Elem::End);
    let r = v[0];
    let rest = v.drop_first();
    let m = member(true, neg, r.0 as u32, r.1 as u32);
    let z = elems_of(rest, false, neg);
    let n = m.len() as int;
    assert(row == m + z);
    lemma_elems(rest, false, neg);
    if n == 2 {
        assert(a[1] == m[1]);
        assert(ranged(a, 0));
    } else {
        if z.len() > 0 {
            assert(a[1] == z[0]);
        } else {
            assert(a[1] == Elem::End);
        }
        assert(!ranged(a, 0));
    }
    assert(a.subrange(n, n + z.len()) =~= z);
    lemma_tail(a, n, rest, neg, c);
    lemma_covers(v, c);
    assert(plain(r.0));
}

/// Whether a character is a hexadecimal digit of a value.
pub open spec fn is_hex(c: char, v: int) -> bool {
    ||| '0' <= c <= '9' && v == c as int - '0' as int
    ||| 'a' <= c <= 'f' && v == c as int - 'a' as int + 10
    ||| 'A' <= c <= 'F' && v == c as int - 'A' as int + 10
}

/// What a backslash makes of the characters behind it: a line feed, a carriage return or a tab
/// for their letters, the character with a code for `x` and two hexadecimal digits or `u` and
/// four, and any other character as itself.
pub proof fn escapes_stand_for_characters(s: Seq<char>, p: int, a: int, b: int, c: int, e: int)
    requires
        0 <= p,
        p + 1 < s.len(),
        s[p] == '\\',
    ensures
        s[p + 1] == 'n' ==> escaped(s, p) == Ok::<(u32, int), GrammarError>((10, p + 2)),
        s[p + 1] == 'r' ==> escaped(s, p) == Ok::<(u32, int), GrammarError>((13, p + 2)),
        s[p + 1] == 't' ==> escaped(s, p) == Ok::<(u32, int), GrammarError>((9, p + 2)),
        s[p + 1] == 'x' && p + 3 < s.len() && is_hex(s[p + 2], a) && is_hex(s[p + 3], b) ==> escaped(s, p) == Ok::<
            (u32, int),
            GrammarError,
        >(((16 * a + b) as u32, p + 4)),
        s[p + 1] == 'u' && p + 5 < s.len() && is_hex(s[p + 2], a) && is_hex(s[p + 3], b) && is_hex(s[p + 4], c) && is_hex(
            s[p + 5],
            e,
        ) ==> escaped(s, p) == Ok::<(u32, int), GrammarError>(((4096 * a + 256 * b + 16 * c + e) as u32, p + 6)),
        s[p + 1] == '"' || s[p + 1] == '\\' || s[p + 1] == ']' || s[p + 1] == '[' || s[p + 1] == '-' ==> escaped(s, p)
            == Ok::<(u32, int), GrammarError>((s[p + 1] as u32, p + 2)),
{
    if s[p + 1] == 'x' && p + 3 < s.len() && is_hex(s[p + 2], a) && is_hex(s[p + 3], b) {
        let t = s.subrange(p + 2, p + 4);
        lemma_hex_two(t, a, b);
    }
    if s[p + 1] == 'u' && p + 5 < s.len() && is_hex(s[p + 2], a) && is_hex(s[p + 3], b) && is_hex(s[p + 4], c) && is_hex(
        s[p + 5],
        e,
    ) {
        let t = s.subrange(p + 2, p + 6);
        let h = t.take(2);
        lemma_hex_two(h, a, b);
        assert(t.drop_last().drop_last() =~= h);
        assert(t.drop_last().last() == s[p + 4]);
        assert(t.last() == s[p + 5]);
        assert(unsigned(t) == t);
        assert(digits_value(h, 16) == Some((16 * a + b) as nat));
        assert(digits_value(t.drop_last(), 16) == Some((16 * (16 * a + b) + c) as nat));
        assert(digits_value(t, 16) == Some((4096 * a + 256 * b + 16 * c + e) as nat));
    }
}

proof fn lemma_hex_two(t: Seq<char>, a: int, b: int)
    requires
        t.len() == 2,
        is_hex(t[0], a),
        is_hex(t[1], b),
    ensures
        digits_value(t, 16) == Some((16 * a + b) as nat),
        number(t, 16) == Some((16 * a + b) as nat),
{
    let u = t.drop_last();
    assert(u.drop_last() =~= Seq::<char>::empty());
    assert(digits_value(u.drop_last(), 16) == Some(0nat));
    assert(u.last() == t[0]);
    assert(digit_value(t[0], 16) == Some(a as nat));
    assert(digit_value(t[1], 16) == Some(b as nat));
    assert(digits_value(u, 16) == Some(a as nat));
    assert(unsigned(t) == t);
}

} // verus!
