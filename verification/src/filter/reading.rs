//! How a grammar written rule by rule is read.
use vstd::prelude::*;
use crate::filter::json_schema::{rule_line, rules_text, Row};
use crate::filter::syntax::{
    comment_index, def_index, definitions, finished, line_end, name_char, read_line, read_lines, without_comment, Reading,
};
use crate::text::{index_of, skip_white, trim, trim_end, white};

verus! {

/// Whether a rule's line is read as it was written: its name is one, and its body stands on one
/// line and has no comment.
pub open spec fn clean(r: Row) -> bool {
    &&& r.0.len() > 0
    &&& forall|i: int| 0 <= i < r.0.len() ==> name_char(#[trigger] r.0[i])
    &&& r.1.len() > 0 ==> r.1.last() != '\r'
    &&& forall|i: int| 0 <= i < r.1.len() ==> #[trigger] r.1[i] != '\n'
    &&& comment_index(r.1, 0, None) == r.1.len()
}

/// The definitions that rules are read as.
pub open spec fn defs_of(rules: Seq<Row>) -> Seq<Row> {
    Seq::new(rules.len(), |i: int| (rules[i].0, seq![' '] + rules[i].1))
}

proof fn lemma_index_of_is(s: Seq<char>, c: char, p: int, q: int)
    requires
        0 <= p <= q < s.len(),
        s[q] == c,
        forall|i: int| p <= i < q ==> #[trigger] s[i] != c,
    ensures
        index_of(s, c, p) == q,
    decreases q - p,
{
    if p < q {
        lemma_index_of_is(s, c, p + 1, q);
    }
}

pub proof fn lemma_comment_shift(pre: Seq<char>, b: Seq<char>, p: int, close: Option<char>)
    requires
        0 <= p <= b.len(),
    ensures
        comment_index(pre + b, pre.len() + p, close) == pre.len() + comment_index(b, p, close),
    decreases b.len() - p,
{
    let s = pre + b;
    if p < b.len() {
        assert(s[pre.len() + p] == b[p]);
        match close {
            Some(c) => {
                if b[p] == c {
                    lemma_comment_shift(pre, b, p + 1, None);
                } else if b[p] == '\\' && p + 1 < b.len() {
                    lemma_comment_shift(pre, b, p + 2, close);
                } else {
                    lemma_comment_shift(pre, b, p + 1, close);
                }
            },
            None => {
                if b[p] == '#' {
                } else if b[p] == '"' {
                    lemma_comment_shift(pre, b, p + 1, Some('"'));
                } else if b[p] == '[' {
                    lemma_comment_shift(pre, b, p + 1, Some(']'));
                } else {
                    lemma_comment_shift(pre, b, p + 1, None);
                }
            },
        }
    }
}

/// No comment begins before `q` where nothing there begins one, nor a literal or a class.
pub proof fn lemma_comment_past(s: Seq<char>, p: int, q: int)
    requires
        0 <= p <= q <= s.len(),
        forall|i: int| p <= i < q ==> #[trigger] s[i] != '#' && s[i] != '"' && s[i] != '[',
    ensures
        comment_index(s, p, None) == comment_index(s, q, None),
    decreases q - p,
{
    if p < q {
        lemma_comment_past(s, p + 1, q);
    }
}

/// A text without the character has no comment.
pub proof fn lemma_no_comment(s: Seq<char>, p: int, close: Option<char>)
    requires
        0 <= p <= s.len(),
        forall|i: int| 0 <= i < s.len() ==> #[trigger] s[i] != '#',
    ensures
        comment_index(s, p, close) == s.len(),
    decreases s.len() - p,
{
    if p < s.len() {
        match close {
            Some(c) => {
                if s[p] == c {
                    lemma_no_comment(s, p + 1, None);
                } else if s[p] == '\\' && p + 1 < s.len() {
                    lemma_no_comment(s, p + 2, close);
                } else {
                    lemma_no_comment(s, p + 1, close);
                }
            },
            None => {
                if s[p] == '"' {
                    lemma_no_comment(s, p + 1, Some('"'));
                } else if s[p] == '[' {
                    lemma_no_comment(s, p + 1, Some(']'));
                } else {
                    lemma_no_comment(s, p + 1, None);
                }
            },
        }
    }
}

proof fn lemma_def_index_is(s: Seq<char>, p: int, q: int)
    requires
        0 <= p <= q,
        q + 3 <= s.len(),
        s[q] == ':' && s[q + 1] == ':' && s[q + 2] == '=',
        forall|i: int| p <= i < q ==> #[trigger] s[i] != ':',
    ensures
        def_index(s, p) == q,
    decreases q - p,
{
    if p < q {
        lemma_def_index_is(s, p + 1, q);
    }
}

proof fn lemma_trim_end_keeps(s: Seq<char>)
    requires
        s.len() > 0,
        !white(s[0]),
    ensures
        trim_end(s).len() > 0,
        trim_end(s)[0] == s[0],
    decreases s.len(),
{
    if white(s.last()) {
        assert(s.len() > 1);
        lemma_trim_end_keeps(s.drop_last());
    }
}

/// A line that defines a rule is read as its name and its body.
proof fn lemma_read_rule_line(r: Reading, row: Row, line: Seq<char>)
    requires
        clean(row),
        line == row.0 + " ::= "@ + row.1,
    ensures
        read_line(r, line) == (Reading { done: finished(r), name: row.0, body: seq![' '] + row.1 }),
{
    reveal_strlit(" ::= ");
    let n = row.0.len() as int;
    let head = row.0 + " ::= "@;
    assert(head.len() == n + 5);
    assert(line =~= head + row.1);
    lemma_comment_shift(head, row.1, 0, None);
    assert forall|i: int| 0 <= i < n + 5 implies #[trigger] line[i] != '#' && line[i] != '"' && line[i] != '[' by {
        if i < n {
            assert(name_char(row.0[i]));
        }
    }
    lemma_comment_past(line, 0, n + 5);
    assert(comment_index(line, 0, None) == line.len());
    assert(without_comment(line) =~= line);
    assert(name_char(row.0[0]));
    assert(line[0] == row.0[0]);
    lemma_trim_end_keeps(line);
    assert(skip_white(trim_end(line), 0) == 0);
    assert(trim(line).len() > 0);
    assert(line[n] == ' ' && line[n + 1] == ':' && line[n + 2] == ':' && line[n + 3] == '=' && line[n + 4] == ' ');
    assert forall|i: int| 0 <= i < n + 1 implies #[trigger] line[i] != ':' by {
        if i < n {
            assert(name_char(row.0[i]));
        }
    }
    lemma_def_index_is(line, 0, n + 1);
    let front = line.take(n + 1);
    assert(front.last() == ' ');
    assert(front.drop_last() =~= row.0);
    assert(name_char(row.0[n - 1]));
    assert(trim_end(row.0) == row.0);
    assert(trim_end(front) == row.0);
    assert(skip_white(row.0, 0) == 0);
    assert(trim(front) =~= row.0);
    assert(line.skip(n + 4) =~= seq![' '] + row.1);
}

/// A rule's line at `p` is read, and the rest of the text behind it.
proof fn lemma_read_rule(r: Reading, s: Seq<char>, p: int, row: Row)
    requires
        clean(row),
        0 <= p,
        p + rule_line(row).len() <= s.len(),
        s.subrange(p, p + rule_line(row).len()) == rule_line(row),
    ensures
        read_lines(r, s, p) == read_lines(
            Reading { done: finished(r), name: row.0, body: seq![' '] + row.1 },
            s,
            p + rule_line(row).len(),
        ),
{
    reveal_strlit(" ::= ");
    reveal_strlit("\n");
    let w = rule_line(row);
    let line = row.0 + " ::= "@ + row.1;
    let n = row.0.len() as int;
    let q = p + line.len();
    assert(w =~= line + seq!['\n']);
    assert forall|i: int| 0 <= i < w.len() implies s[p + i] == #[trigger] w[i] by {
        assert(s.subrange(p, p + w.len())[i] == w[i]);
    }
    assert(s[q] == w[line.len() as int]);
    assert forall|i: int| p <= i < q implies #[trigger] s[i] != '\n' by {
        let k = i - p;
        assert(s[p + k] == w[k]);
        if k < n {
            assert(name_char(row.0[k]));
        } else if k >= n + 5 {
            assert(w[k] == row.1[k - n - 5]);
        }
    }
    lemma_index_of_is(s, '\n', p, q);
    assert(s[q - 1] == w[line.len() - 1]);
    assert(row.1.len() > 0 ==> w[line.len() - 1] == row.1.last());
    assert(row.1.len() == 0 ==> w[line.len() - 1] == ' ');
    assert(line_end(s, p) == q);
    assert(s.subrange(p, q) =~= line) by {
        assert forall|i: int| 0 <= i < line.len() implies s[p + i] == #[trigger] line[i] by {
            assert(w[i] == line[i]);
        }
    }
    lemma_read_rule_line(r, row, line);
}

proof fn lemma_rules_split(rules: Seq<Row>, k: int)
    requires
        0 <= k < rules.len(),
    ensures
        rules_text(rules.take(k)).len() + rule_line(rules[k]).len() <= rules_text(rules).len(),
        rules_text(rules.take(k + 1)).len() == rules_text(rules.take(k)).len() + rule_line(rules[k]).len(),
        rules_text(rules).subrange(
            rules_text(rules.take(k)).len() as int,
            (rules_text(rules.take(k)).len() + rule_line(rules[k]).len()) as int,
        ) == rule_line(rules[k]),
    decreases rules.len(),
{
    assert(rules.take(k + 1).drop_last() =~= rules.take(k));
    let all = rules_text(rules);
    let a = rules_text(rules.take(k)).len() as int;
    let w = rule_line(rules[k]);
    if k == rules.len() - 1 {
        assert(rules.take(k) =~= rules.drop_last());
        assert(all.subrange(a, a + w.len()) =~= w);
    } else {
        let rest = rules.drop_last();
        lemma_rules_split(rest, k);
        assert(rest.take(k) =~= rules.take(k));
        assert(all.subrange(a, a + w.len()) =~= rules_text(rest).subrange(a, a + w.len()));
    }
}

proof fn lemma_read_rules(rules: Seq<Row>, k: int, r: Reading)
    requires
        0 <= k <= rules.len(),
        forall|i: int| 0 <= i < rules.len() ==> clean(#[trigger] rules[i]),
        finished(r) == defs_of(rules.take(k)),
    ensures
        finished(read_lines(r, rules_text(rules), rules_text(rules.take(k)).len() as int)) == defs_of(rules),
    decreases rules.len() - k,
{
    let s = rules_text(rules);
    let p = rules_text(rules.take(k)).len() as int;
    if k == rules.len() {
        assert(rules.take(k) =~= rules);
    } else {
        lemma_rules_split(rules, k);
        lemma_read_rule(r, s, p, rules[k]);
        let next = Reading { done: finished(r), name: rules[k].0, body: seq![' '] + rules[k].1 };
        assert(finished(next) =~= defs_of(rules.take(k + 1))) by {
            assert(rules.take(k + 1) =~= rules.take(k).push(rules[k]));
        }
        lemma_read_rules(rules, k + 1, next);
    }
}

/// A grammar written rule by rule is read as those rules.
pub proof fn written_rules_are_read(rules: Seq<Row>)
    requires
        forall|i: int| 0 <= i < rules.len() ==> clean(#[trigger] rules[i]),
    ensures
        definitions(rules_text(rules)) == defs_of(rules),
{
    let r = Reading { done: seq![], name: seq![], body: seq![] };
    assert(rules.take(0) =~= seq![]);
    assert(finished(r) =~= defs_of(rules.take(0)));
    lemma_read_rules(rules, 0, r);
}

/// Whether nothing in `s` begins a comment, a literal or a class.
pub open spec fn bare(s: Seq<char>) -> bool {
    forall|i: int| 0 <= i < s.len() ==> #[trigger] s[i] != '#' && s[i] != '"' && s[i] != '['
}

/// Whether `::=` stands at `i` in `s`.
pub open spec fn defines_at(s: Seq<char>, i: int) -> bool {
    0 <= i && i + 3 <= s.len() && s[i] == ':' && s[i + 1] == ':' && s[i + 2] == '='
}

proof fn lemma_def_first(s: Seq<char>, p: int, q: int)
    requires
        0 <= p <= q,
        defines_at(s, q),
        forall|i: int| p <= i < q ==> !#[trigger] defines_at(s, i),
    ensures
        def_index(s, p) == q,
    decreases q - p,
{
    if p < q {
        assert(!defines_at(s, p));
        lemma_def_first(s, p + 1, q);
    }
}

proof fn lemma_def_none(s: Seq<char>, p: int)
    requires
        0 <= p,
        forall|i: int| p <= i < s.len() ==> !#[trigger] defines_at(s, i),
    ensures
        def_index(s, p) == s.len(),
    decreases s.len() - p,
{
    if p + 3 <= s.len() {
        assert(!defines_at(s, p));
        lemma_def_none(s, p + 1);
    }
}

proof fn lemma_bare(s: Seq<char>)
    requires
        bare(s),
    ensures
        without_comment(s) == s,
{
    lemma_no_comment(s, 0, None);
    assert(s.take(s.len() as int) =~= s);
}

proof fn lemma_white_stops(s: Seq<char>, i: int, k: int)
    requires
        0 <= i <= k < s.len(),
        !white(s[k]),
    ensures
        i <= skip_white(s, i) <= k,
    decreases k - i,
{
    if white(s[i]) {
        lemma_white_stops(s, i + 1, k);
    }
}

proof fn lemma_trim_keeps(s: Seq<char>, k: int)
    requires
        0 <= k < s.len(),
        !white(s[k]),
    ensures
        trim(s).len() > 0,
    decreases s.len(),
{
    if white(s.last()) {
        assert(k < s.len() - 1);
        assert(s.drop_last()[k] == s[k]);
        lemma_trim_keeps(s.drop_last(), k);
        assert(trim_end(s) == trim_end(s.drop_last()));
    } else {
        lemma_white_stops(s, 0, k);
        assert(trim_end(s) == s);
    }
}

proof fn lemma_trim_none(s: Seq<char>)
    requires
        forall|i: int| 0 <= i < s.len() ==> white(#[trigger] s[i]),
    ensures
        trim(s).len() == 0,
    decreases s.len(),
{
    if s.len() > 0 {
        assert(white(s.last()));
        lemma_trim_none(s.drop_last());
        assert(trim_end(s) == trim_end(s.drop_last()));
    }
}

/// What stands behind a `#` outside literals and classes says nothing, whatever it is: the line
/// is read as it is without that.
pub proof fn comments_say_nothing(r: Reading, line: Seq<char>, note: Seq<char>)
    requires
        bare(line),
    ensures
        read_line(r, line + seq!['#'] + note) == read_line(r, line),
{
    let s = line + seq!['#'] + note;
    let n = line.len() as int;
    assert forall|i: int| 0 <= i < n implies #[trigger] s[i] != '#' && s[i] != '"' && s[i] != '[' by {
        assert(s[i] == line[i]);
    }
    lemma_comment_past(s, 0, n);
    assert(s[n] == '#');
    assert(s.take(n) =~= line);
    lemma_bare(line);
}

/// In a literal a `#` stands for itself: a line with one is read with all that follows it.
pub proof fn literals_keep_their_hashes(a: Seq<char>, b: Seq<char>, c: Seq<char>)
    requires
        bare(a),
        bare(c),
        forall|i: int| 0 <= i < b.len() ==> #[trigger] b[i] != '"' && b[i] != '\\',
    ensures
        without_comment(a + seq!['"'] + b + seq!['"'] + c) == a + seq!['"'] + b + seq!['"'] + c,
{
    let s = a + seq!['"'] + b + seq!['"'] + c;
    let n = a.len() as int;
    let m = n + 1 + b.len();
    assert forall|i: int| 0 <= i < n implies #[trigger] s[i] != '#' && s[i] != '"' && s[i] != '[' by {
        assert(s[i] == a[i]);
    }
    lemma_comment_past(s, 0, n);
    assert(s[n] == '"');
    assert forall|i: int| n + 1 <= i < m implies #[trigger] s[i] != '"' && s[i] != '\\' by {
        assert(s[i] == b[i - n - 1]);
    }
    lemma_inside(s, n + 1, m);
    assert(s[m] == '"');
    assert forall|i: int| m + 1 <= i < s.len() implies #[trigger] s[i] != '#' && s[i] != '"' && s[i] != '[' by {
        assert(s[i] == c[i - m - 1]);
    }
    lemma_comment_past(s, m + 1, s.len() as int);
    assert(s.take(s.len() as int) =~= s);
}

proof fn lemma_inside(s: Seq<char>, p: int, q: int)
    requires
        0 <= p <= q <= s.len(),
        forall|i: int| p <= i < q ==> #[trigger] s[i] != '"' && s[i] != '\\',
    ensures
        comment_index(s, p, Some('"')) == comment_index(s, q, Some('"')),
    decreases q - p,
{
    if p < q {
        lemma_inside(s, p + 1, q);
    }
}

/// A line that defines nothing goes on with the rule of the line before it: both lines are read
/// as one, with a space between them.
pub proof fn lines_go_on(r: Reading, a: Seq<char>, b: Seq<char>, i: int, k: int)
    requires
        bare(a),
        bare(b),
        defines_at(a, i),
        forall|j: int| 0 <= j < i ==> !#[trigger] defines_at(a, j),
        forall|j: int| 0 <= j < b.len() ==> !#[trigger] defines_at(b, j),
        0 <= k < b.len(),
        !white(b[k]),
    ensures
        read_line(read_line(r, a), b) == read_line(r, a + seq![' '] + b),
{
    let s = a + seq![' '] + b;
    assert forall|j: int| 0 <= j < s.len() implies #[trigger] s[j] != '#' && s[j] != '"' && s[j] != '[' by {
        if j < a.len() {
            assert(s[j] == a[j]);
        } else if j > a.len() {
            assert(s[j] == b[j - a.len() - 1]);
        }
    }
    lemma_bare(a);
    lemma_bare(b);
    lemma_bare(s);
    lemma_def_first(a, 0, i);
    lemma_def_none(b, 0);
    assert forall|j: int| 0 <= j < i implies !#[trigger] defines_at(s, j) by {
        assert(!defines_at(a, j));
        assert(s[j] == a[j] && s[j + 1] == a[j + 1] && s[j + 2] == a[j + 2]);
    }
    lemma_def_first(s, 0, i);
    assert(!white(':'));
    lemma_trim_keeps(a, i);
    lemma_trim_keeps(s, i);
    lemma_trim_keeps(b, k);
    assert(s.take(i) =~= a.take(i));
    assert(a.skip(i + 3).push(' ') + b =~= s.skip(i + 3));
}

/// A blank line changes nothing.
pub proof fn blank_lines_say_nothing(r: Reading, line: Seq<char>)
    requires
        forall|i: int| 0 <= i < line.len() ==> white(#[trigger] line[i]),
    ensures
        read_line(r, line) == r,
{
    assert(bare(line));
    lemma_bare(line);
    lemma_trim_none(line);
}

} // verus!
