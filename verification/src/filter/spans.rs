//! What the rows of a grammar read, put together from what their parts read.
use vstd::prelude::*;
use crate::filter::automaton::{ranged, set_end, set_has, starts, tail_end, tail_has, Elem};
use crate::filter::constants::lemma_starts;
use crate::filter::language::{derives, in_language, lemma_derives_mono};
use crate::filter::shapes::flat;

verus! {

/// Whether `text` can be read from place `(r, i)` to the end of the alternate.
pub open spec fn goes(rs: Seq<Seq<Elem>>, r: int, i: int, text: Seq<u32>) -> bool {
    exists|n: nat| #[trigger] derives(rs, r, i, text, n)
}

/// Whether the elements of a row, one behind the other, read `text`.
pub open spec fn spans(rs: Seq<Seq<Elem>>, row: Seq<Elem>, text: Seq<u32>) -> bool
    decreases row.len(),
{
    if row.len() == 0 {
        text.len() == 0
    } else {
        match row[0] {
            Elem::RuleRef(s) => s < rs.len() && exists|k: int|
                0 <= k <= text.len() && #[trigger] in_language(rs, s as int, text.take(k)) && spans(
                    rs,
                    row.drop_first(),
                    text.skip(k),
                ),
            Elem::Char(_) | Elem::CharNot(_) => {
                let whole = row.push(Elem::End);
                let q = set_end(whole, 0);
                0 < q <= row.len() && text.len() > 0 && set_has(whole, 0, text[0]) && spans(
                    rs,
                    row.skip(q),
                    text.drop_first(),
                )
            },
            _ => spans(rs, row.drop_first(), text),
        }
    }
}

/// Whether `text` is read by a reference to rule `id`, and then by `rest`.
pub open spec fn splits(rs: Seq<Seq<Elem>>, id: int, rest: Seq<Elem>, text: Seq<u32>, k: int) -> bool {
    0 <= k <= text.len() && in_language(rs, id, text.take(k)) && spans(rs, rest, text.skip(k))
}

/// What a row reads that begins with a reference.
pub proof fn lemma_reference(rs: Seq<Seq<Elem>>, row: Seq<Elem>, text: Seq<u32>)
    requires
        row.len() > 0,
        row[0] is RuleRef,
    ensures
        spans(rs, row, text) <==> (row[0]->RuleRef_0 < rs.len() && exists|k: int| #[trigger]
            splits(rs, row[0]->RuleRef_0 as int, row.drop_first(), text, k)),
{
    let s = row[0]->RuleRef_0 as int;
    if spans(rs, row, text) {
        let k = choose|k: int|
            0 <= k <= text.len() && #[trigger] in_language(rs, s, text.take(k)) && spans(
                rs,
                row.drop_first(),
                text.skip(k),
            );
        assert(splits(rs, s, row.drop_first(), text, k));
    }
}

/// Whether an element belongs to no set that began before it.
pub open spec fn parts(e: Elem) -> bool {
    !(e is CharAlt || e is CharRngUpper)
}

/// A set that stands in two rows alike ends at the same place, and has the same members.
proof fn lemma_tails(a: Seq<Elem>, i: int, b: Seq<Elem>, j: int, n: int, c: u32)
    requires
        0 <= i,
        0 <= j,
        0 <= n,
        i + n < a.len(),
        j + n < b.len(),
        forall|k: int| 0 <= k < n ==> a[i + k] == #[trigger] b[j + k],
        parts(a[i + n]),
        parts(b[j + n]),
    ensures
        tail_end(a, i) - i == tail_end(b, j) - j,
        0 <= tail_end(b, j) - j <= n,
        tail_has(a, i, c) == tail_has(b, j, c),
    decreases n,
{
    if n > 0 {
        assert(a[i + 0] == b[j + 0]);
        if n > 1 {
            assert(a[i + 1] == b[j + 1]);
        } else {
            assert(a[i + n] == a[i + 1] && b[j + n] == b[j + 1]);
        }
        if b[j] is CharAlt {
            let w: int = if b[j + 1] is CharRngUpper {
                2
            } else {
                1
            };
            assert forall|k: int| 0 <= k < n - w implies a[(i + w) + k] == #[trigger] b[(j + w) + k] by {
                assert(a[i + (w + k)] == b[j + (w + k)]);
            }
            lemma_tails(a, i + w, b, j + w, n - w, c);
        }
    } else {
        assert(a[i + 0] == a[i + n]);
        assert(b[j + 0] == b[j + n]);
    }
}

proof fn lemma_sets(a: Seq<Elem>, i: int, b: Seq<Elem>, j: int, n: int, c: u32)
    requires
        0 <= i,
        0 <= j,
        0 < n,
        i + n < a.len(),
        j + n < b.len(),
        forall|k: int| 0 <= k < n ==> a[i + k] == #[trigger] b[j + k],
        parts(a[i + n]),
        parts(b[j + n]),
    ensures
        set_end(a, i) - i == set_end(b, j) - j,
        0 < set_end(b, j) - j <= n,
        set_has(a, i, c) == set_has(b, j, c),
{
    assert(a[i + 0] == b[j + 0]);
    if n > 1 {
        assert(a[i + 1] == b[j + 1]);
    } else {
        assert(a[i + n] == a[i + 1] && b[j + n] == b[j + 1]);
    }
    assert(ranged(a, i) == ranged(b, j));
    let w: int = if ranged(b, j) {
        2
    } else {
        1
    };
    assert forall|k: int| 0 <= k < n - w implies a[(i + w) + k] == #[trigger] b[(j + w) + k] by {
        assert(a[i + (w + k)] == b[j + (w + k)]);
    }
    lemma_tails(a, i + w, b, j + w, n - w, c);
}

/// What is read from a place to the end of its alternate is what the row in between reads.
pub proof fn lemma_goes(rs: Seq<Seq<Elem>>, r: int, i: int, e: int, text: Seq<u32>)
    requires
        0 <= r < rs.len(),
        0 <= i <= e < rs[r].len(),
        flat(rs[r].subrange(i, e)),
        rs[r][e] is End || rs[r][e] is Alt,
    ensures
        goes(rs, r, i, text) <==> spans(rs, rs[r].subrange(i, e), text),
    decreases e - i,
{
    let rule = rs[r];
    let row = rule.subrange(i, e);
    if i == e {
        assert(row =~= seq![]);
        if text.len() == 0 {
            assert(derives(rs, r, i, text, 1));
        }
    } else {
        assert(row[0] == rule[i]);
        match rule[i] {
            Elem::RuleRef(s) => {
                assert(row.drop_first() =~= rule.subrange(i + 1, e));
                lemma_flat_tail(rule, i, i + 1, e);
                lemma_reference(rs, row, text);
                if goes(rs, r, i, text) {
                    let n = choose|n: nat| #[trigger] derives(rs, r, i, text, n);
                    let sts = starts(rs[s as int]);
                    let n1 = (n - 1) as nat;
                    let (k, a) = choose|k: int, a: int|
                        #![trigger text.take(k), sts[a]]
                        0 <= k <= text.len() && 0 <= a < sts.len() && derives(
                            rs,
                            s as int,
                            sts[a],
                            text.take(k),
                            n1,
                        ) && derives(rs, r, i + 1, text.skip(k), n1);
                    assert(in_language(rs, s as int, text.take(k)));
                    assert(goes(rs, r, i + 1, text.skip(k)));
                    lemma_goes(rs, r, i + 1, e, text.skip(k));
                    assert(splits(rs, s as int, row.drop_first(), text, k));
                }
                if spans(rs, row, text) {
                    let k = choose|k: int| #[trigger] splits(rs, s as int, row.drop_first(), text, k);
                    lemma_goes(rs, r, i + 1, e, text.skip(k));
                    let m = choose|n: nat| #[trigger] derives(rs, r, i + 1, text.skip(k), n);
                    let (a, n) = choose|a: int, n: nat|
                        0 <= a < starts(rs[s as int]).len() && #[trigger] derives(
                            rs,
                            s as int,
                            starts(rs[s as int])[a],
                            text.take(k),
                            n,
                        );
                    let top = m + n;
                    lemma_derives_mono(rs, r, i + 1, text.skip(k), m, top);
                    lemma_derives_mono(rs, s as int, starts(rs[s as int])[a], text.take(k), n, top);
                    let sts = starts(rs[s as int]);
                    assert(derives(rs, s as int, sts[a], text.take(k), top));
                    assert(derives(rs, r, i, text, top + 1));
                }
            },
            Elem::Char(_) | Elem::CharNot(_) => {
                let whole = row.push(Elem::End);
                let n = e - i;
                assert forall|k: int| 0 <= k < n implies rule[i + k] == #[trigger] whole[0 + k] by {}
                if text.len() > 0 {
                    lemma_sets(rule, i, whole, 0, n, text[0]);
                    let q = set_end(whole, 0);
                    assert(row.skip(q) =~= rule.subrange(i + q, e));
                    lemma_flat_tail(rule, i, i + q, e);
                    lemma_goes(rs, r, i + q, e, text.drop_first());
                    if goes(rs, r, i, text) {
                        let m = choose|n: nat| #[trigger] derives(rs, r, i, text, n);
                        assert(derives(rs, r, i + q, text.drop_first(), (m - 1) as nat));
                        assert(goes(rs, r, i + q, text.drop_first()));
                    }
                    if spans(rs, row, text) {
                        let m = choose|n: nat| #[trigger] derives(rs, r, i + q, text.drop_first(), n);
                        assert(derives(rs, r, i, text, m + 1));
                    }
                } else if goes(rs, r, i, text) {
                    let m = choose|n: nat| #[trigger] derives(rs, r, i, text, n);
                    assert(false);
                }
            },
            _ => {
                assert(row.drop_first() =~= rule.subrange(i + 1, e));
                lemma_flat_tail(rule, i, i + 1, e);
                assert(rule[i] is CharRngUpper || rule[i] is CharAlt);
                lemma_goes(rs, r, i + 1, e, text);
                if goes(rs, r, i, text) {
                    let m = choose|n: nat| #[trigger] derives(rs, r, i, text, n);
                    assert(derives(rs, r, i + 1, text, (m - 1) as nat));
                    assert(goes(rs, r, i + 1, text));
                }
                if spans(rs, row, text) {
                    let m = choose|n: nat| #[trigger] derives(rs, r, i + 1, text, n);
                    assert(derives(rs, r, i, text, m + 1));
                }
            },
        }
    }
}

proof fn lemma_flat_tail(rule: Seq<Elem>, i: int, j: int, e: int)
    requires
        0 <= i <= j <= e <= rule.len(),
        flat(rule.subrange(i, e)),
    ensures
        flat(rule.subrange(j, e)),
        i < e ==> rule[i] != Elem::End && rule[i] != Elem::Alt,
{
    let a = rule.subrange(i, e);
    let b = rule.subrange(j, e);
    assert forall|k: int| 0 <= k < b.len() implies #[trigger] b[k] != Elem::End && b[k] != Elem::Alt by {
        assert(b[k] == a[j - i + k]);
    }
    if i < e {
        assert(rule[i] == a[0]);
    }
}

/// A rule made of rows with bars between them.
pub open spec fn barred(rows: Seq<Seq<Elem>>) -> Seq<Elem>
    decreases rows.len(),
{
    if rows.len() == 0 {
        seq![]
    } else if rows.len() == 1 {
        rows[0].push(Elem::End)
    } else {
        rows[0].push(Elem::Alt) + barred(rows.drop_first())
    }
}

/// Whether none of some rows has an end or a bar.
pub open spec fn flat_all(rows: Seq<Seq<Elem>>) -> bool {
    forall|j: int| 0 <= j < rows.len() ==> flat(#[trigger] rows[j])
}

/// Whether one of some rows reads `text`.
pub open spec fn some_span(rs: Seq<Seq<Elem>>, rows: Seq<Seq<Elem>>, text: Seq<u32>) -> bool {
    exists|j: int| 0 <= j < rows.len() && spans(rs, #[trigger] rows[j], text)
}

/// The places from `p` on at which alternates begin are those of the rows, and each reads what
/// its row reads.
proof fn lemma_barred(rs: Seq<Seq<Elem>>, r: int, p: int, rows: Seq<Seq<Elem>>, text: Seq<u32>)
    requires
        0 <= r < rs.len(),
        0 <= p <= rs[r].len(),
        rs[r].skip(p) == barred(rows),
        rows.len() > 0,
        flat_all(rows),
    ensures
        some_span(rs, rows, text) <==> exists|q: int|
            p <= q <= rs[r].len() && (q == p || rs[r][q - 1] == Elem::Alt) && #[trigger] goes(rs, r, q, text),
    decreases rows.len(),
{
    let rule = rs[r];
    let w = barred(rows);
    let n = rows[0].len() as int;
    assert(flat(rows[0]));
    assert(w.len() >= n + 1);
    assert(rule.skip(p).len() == rule.len() - p);
    assert(rule.len() == p + w.len());
    assert forall|k: int| 0 <= k < w.len() implies rule[p + k] == #[trigger] w[k] by {
        assert(rule.skip(p)[k] == w[k]);
    }
    assert forall|k: int| 0 <= k < n implies w[k] == #[trigger] rows[0][k] by {}
    assert(rule.subrange(p, p + n) =~= rows[0]);
    assert(w[n] is End || w[n] is Alt);
    assert(rule[p + n] == w[n]);
    lemma_goes(rs, r, p, p + n, text);
    assert forall|q: int| p < q <= p + n implies #[trigger] rule[q - 1] != Elem::Alt by {
        assert(w[q - 1 - p] == rows[0][q - 1 - p]);
        assert(rule[p + (q - 1 - p)] == w[q - 1 - p]);
    }
    if rows.len() > 1 {
        let rest = rows.drop_first();
        let z = p + n + 1;
        assert(rule.skip(z) =~= barred(rest)) by {
            assert(w.skip(n + 1) =~= barred(rest));
            assert(rule.skip(z) =~= rule.skip(p).skip(n + 1));
        }
        assert(flat_all(rest)) by {
            assert forall|j: int| 0 <= j < rest.len() implies flat(#[trigger] rest[j]) by {
                assert(rest[j] == rows[j + 1]);
            }
        }
        lemma_barred(rs, r, z, rest, text);
        assert(rule[z - 1] == Elem::Alt);
        if some_span(rs, rows, text) {
            let j = choose|j: int| 0 <= j < rows.len() && spans(rs, #[trigger] rows[j], text);
            if j > 0 {
                assert(spans(rs, rest[j - 1], text));
                assert(some_span(rs, rest, text));
                let q = choose|q: int|
                    z <= q <= rule.len() && (q == z || rule[q - 1] == Elem::Alt) && #[trigger] goes(rs, r, q, text);
                assert(p <= q && rule[q - 1] == Elem::Alt);
            } else {
                assert(goes(rs, r, p, text));
            }
        }
        if exists|q: int| p <= q <= rule.len() && (q == p || rule[q - 1] == Elem::Alt) && #[trigger] goes(rs, r, q, text) {
            let q = choose|q: int|
                p <= q <= rule.len() && (q == p || rule[q - 1] == Elem::Alt) && #[trigger] goes(rs, r, q, text);
            if q == p {
                assert(spans(rs, rows[0], text));
            } else {
                assert(q >= z);
                assert(some_span(rs, rest, text));
                let j = choose|j: int| 0 <= j < rest.len() && spans(rs, #[trigger] rest[j], text);
                assert(spans(rs, rows[j + 1], text));
            }
        }
    } else {
        assert(w.len() == n + 1);
        assert(rule.len() == p + n + 1);
        if exists|q: int| p <= q <= rule.len() && (q == p || rule[q - 1] == Elem::Alt) && #[trigger] goes(rs, r, q, text) {
            let q = choose|q: int|
                p <= q <= rule.len() && (q == p || rule[q - 1] == Elem::Alt) && #[trigger] goes(rs, r, q, text);
            if q > p {
                assert(q == rule.len());
                assert(rule[p + n] == w[n]);
            }
            assert(spans(rs, rows[0], text));
        }
        if some_span(rs, rows, text) {
            let j = choose|j: int| 0 <= j < rows.len() && spans(rs, #[trigger] rows[j], text);
            assert(goes(rs, r, p, text));
        }
    }
}

/// A rule reads what one of its rows reads.
pub proof fn rules_read_what_a_row_reads(rs: Seq<Seq<Elem>>, r: int, rows: Seq<Seq<Elem>>, text: Seq<u32>)
    requires
        0 <= r < rs.len(),
        rs[r] == barred(rows),
        rows.len() > 0,
        flat_all(rows),
    ensures
        in_language(rs, r, text) <==> some_span(rs, rows, text),
{
    let rule = rs[r];
    assert(rule.skip(0) =~= rule);
    lemma_barred(rs, r, 0, rows, text);
    lemma_starts(rule, rule.len() as int);
    let sts = starts(rule);
    if in_language(rs, r, text) {
        let (a, n) = choose|a: int, n: nat|
            0 <= a < starts(rs[r]).len() && #[trigger] derives(rs, r, starts(rs[r])[a], text, n);
        let q = sts[a];
        assert(goes(rs, r, q, text));
        assert(0 <= q <= rule.len() && (q == 0 || rule[q - 1] == Elem::Alt));
    }
    if some_span(rs, rows, text) {
        let q = choose|q: int|
            0 <= q <= rule.len() && (q == 0 || rule[q - 1] == Elem::Alt) && #[trigger] goes(rs, r, q, text);
        assert(sts.contains(q));
        let a = choose|a: int| 0 <= a < sts.len() && sts[a] == q;
        let n = choose|n: nat| #[trigger] derives(rs, r, q, text, n);
        assert(derives(rs, r, starts(rs[r])[a], text, n));
    }
}

/// Two rows, one behind the other, read what the first reads with what the second reads behind
/// it.
pub proof fn lemma_spans_add(rs: Seq<Seq<Elem>>, a: Seq<Elem>, b: Seq<Elem>, text: Seq<u32>)
    requires
        flat(a),
        flat(b),
        b.len() > 0 ==> parts(b[0]),
    ensures
        spans(rs, a + b, text) <==> exists|k: int| #[trigger] both(rs, a, b, text, k),
    decreases a.len(),
{
    let c = a + b;
    if a.len() == 0 {
        assert(c =~= b);
        if spans(rs, c, text) {
            assert(text.take(0).len() == 0);
            assert(text.skip(0) =~= text);
            assert(both(rs, a, b, text, 0));
        }
        if exists|k: int| #[trigger] both(rs, a, b, text, k) {
            let k = choose|k: int| #[trigger] both(rs, a, b, text, k);
            assert(text.take(k).len() == k);
            assert(k == 0);
            assert(text.skip(0) =~= text);
        }
    } else {
        assert(c[0] == a[0]);
        match a[0] {
            Elem::RuleRef(s) => {
                let a1 = a.drop_first();
                lemma_flat_less(a, 1);
                assert(c.drop_first() =~= a1 + b);
                lemma_reference(rs, c, text);
                if spans(rs, c, text) {
                    let k1 = choose|k: int| #[trigger] splits(rs, s as int, c.drop_first(), text, k);
                    let rest = text.skip(k1);
                    lemma_spans_add(rs, a1, b, rest);
                    let k2 = choose|k: int| #[trigger] both(rs, a1, b, rest, k);
                    lemma_cuts(text, k1, k2);
                    lemma_reference(rs, a, text.take(k1 + k2));
                    assert(splits(rs, s as int, a1, text.take(k1 + k2), k1));
                    assert(both(rs, a, b, text, k1 + k2));
                }
                if exists|k: int| #[trigger] both(rs, a, b, text, k) {
                    let k = choose|k: int| #[trigger] both(rs, a, b, text, k);
                    lemma_reference(rs, a, text.take(k));
                    let k1 = choose|i: int| #[trigger] splits(rs, s as int, a1, text.take(k), i);
                    let rest = text.skip(k1);
                    lemma_cuts(text, k1, k - k1);
                    assert(both(rs, a1, b, rest, k - k1));
                    lemma_spans_add(rs, a1, b, rest);
                    assert(splits(rs, s as int, c.drop_first(), text, k1));
                }
            },
            Elem::Char(_) | Elem::CharNot(_) => {
                let wa = a.push(Elem::End);
                let wc = c.push(Elem::End);
                let n = a.len() as int;
                if text.len() > 0 {
                    assert forall|k: int| 0 <= k < n implies wa[0 + k] == #[trigger] wc[0 + k] by {}
                    assert(parts(wc[0 + n]));
                    lemma_sets(wa, 0, wc, 0, n, text[0]);
                    let q = set_end(wa, 0);
                    let a1 = a.skip(q);
                    lemma_flat_less(a, q);
                    assert(c.skip(q) =~= a1 + b);
                    let rest = text.drop_first();
                    lemma_spans_add(rs, a1, b, rest);
                    if spans(rs, c, text) {
                        let k = choose|k: int| #[trigger] both(rs, a1, b, rest, k);
                        let t = text.take(k + 1);
                        assert(t.drop_first() =~= rest.take(k));
                        assert(t[0] == text[0]);
                        assert(text.skip(k + 1) =~= rest.skip(k));
                        assert(both(rs, a, b, text, k + 1));
                    }
                    if exists|k: int| #[trigger] both(rs, a, b, text, k) {
                        let k = choose|k: int| #[trigger] both(rs, a, b, text, k);
                        let t = text.take(k);
                        assert(k > 0);
                        assert(t[0] == text[0]);
                        assert(t.drop_first() =~= rest.take(k - 1));
                        assert(text.skip(k) =~= rest.skip(k - 1));
                        assert(both(rs, a1, b, rest, k - 1));
                    }
                } else if exists|k: int| #[trigger] both(rs, a, b, text, k) {
                    let k = choose|k: int| #[trigger] both(rs, a, b, text, k);
                    assert(text.take(k).len() == 0);
                }
            },
            _ => {
                let a1 = a.drop_first();
                lemma_flat_less(a, 1);
                assert(c.drop_first() =~= a1 + b);
                lemma_spans_add(rs, a1, b, text);
                if spans(rs, c, text) {
                    let k = choose|k: int| #[trigger] both(rs, a1, b, text, k);
                    assert(both(rs, a, b, text, k));
                }
                if exists|k: int| #[trigger] both(rs, a, b, text, k) {
                    let k = choose|k: int| #[trigger] both(rs, a, b, text, k);
                    assert(both(rs, a1, b, text, k));
                }
            },
        }
    }
}

/// Whether one row reads the first `k` of `text`, and another the others.
pub open spec fn both(rs: Seq<Seq<Elem>>, a: Seq<Elem>, b: Seq<Elem>, text: Seq<u32>, k: int) -> bool {
    0 <= k <= text.len() && spans(rs, a, text.take(k)) && spans(rs, b, text.skip(k))
}

proof fn lemma_flat_less(a: Seq<Elem>, q: int)
    requires
        flat(a),
        0 <= q <= a.len(),
    ensures
        flat(a.skip(q)),
        q == 1 ==> a.skip(q) == a.drop_first(),
{
    let b = a.skip(q);
    assert forall|k: int| 0 <= k < b.len() implies #[trigger] b[k] != Elem::End && b[k] != Elem::Alt by {
        assert(b[k] == a[q + k]);
    }
    if q == 1 {
        assert(b =~= a.drop_first());
    }
}

proof fn lemma_cuts(text: Seq<u32>, i: int, j: int)
    requires
        0 <= i,
        0 <= j,
        i + j <= text.len(),
    ensures
        text.take(i + j).take(i) == text.take(i),
        text.take(i + j).skip(i) == text.skip(i).take(j),
        text.skip(i).skip(j) == text.skip(i + j),
{
    assert(text.take(i + j).take(i) =~= text.take(i));
    assert(text.take(i + j).skip(i) =~= text.skip(i).take(j));
    assert(text.skip(i).skip(j) =~= text.skip(i + j));
}

} // verus!
