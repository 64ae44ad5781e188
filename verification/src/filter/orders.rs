//! Grammars written rule by rule, on which a machine always comes to rest.
use vstd::prelude::*;
use crate::filter::automaton::{shaped, sound_from, Elem};
use crate::filter::drafts::{hidden, lemma_name_index, lemma_name_index_stays};
use crate::filter::forms::stands;
use crate::filter::json_schema::{rules_text, Row};
use crate::filter::reading::{clean, defs_of, written_rules_are_read};
use crate::filter::shapes::{
    alts_ok, alts_text, headed, headed_from, helped, helper, kept, lemma_alts_read, lemma_names_read, loops,
    names_only, numbered, refs_in, Item, Piece,
};
use crate::filter::soundness::{
    begins_at, braced, descends, firm, firm_from, orderly, orderly_grammars_are_sound, quiet, takes,
};
use crate::filter::syntax::{
    alternates, compiled, defined, grammar_of, interned, name_index, named, sequence, Draft, GrammarError,
};
use crate::text::skip_white;

verus! {

/// Whether each alternate is the name of a rule of a lower rank.
pub open spec fn names_below(v: Seq<Seq<Item>>, rank: spec_fn(Seq<char>) -> nat, name: Seq<char>) -> bool {
    forall|k: int|
        0 <= k < v.len() ==> (#[trigger] v[k]).len() == 1 && v[k][0].op is None && match v[k][0].piece {
            Piece::Name(n) => rank(n) < rank(name),
            _ => false,
        }
}

/// Whether a rule is written as these alternates, and takes input at once, refers to no other rule,
/// or is one of others of a lower rank.
pub open spec fn drawn_as(r: Row, v: Seq<Seq<Item>>, all: Seq<Seq<char>>, rank: spec_fn(Seq<char>) -> nat) -> bool {
    &&& seq![' '] + r.1 == alts_text(v)
    &&& {
        ||| alts_ok(v, all, true) && headed(v)
        ||| alts_ok(v, all, false)
        ||| alts_ok(v, all, true) && names_below(v, rank, r.0)
    }
}

/// Whether a rule is empty, or written as some alternates that keep the order.
pub open spec fn drawn(r: Row, all: Seq<Seq<char>>, rank: spec_fn(Seq<char>) -> nat) -> bool {
    r.1.len() == 0 || exists|v: Seq<Seq<Item>>| #[trigger] drawn_as(r, v, all, rank)
}

/// The names of some rules.
pub open spec fn names_of(rules: Seq<Row>) -> Seq<Seq<char>> {
    Seq::new(rules.len(), |i: int| rules[i].0)
}

/// Whether a helper refers to rules that there are, only to helpers like it where it is cold, and to
/// rules before it or as a loop.
pub open spec fn settled(rs: Seq<Seq<Elem>>, m: int, hots: Seq<bool>, i: int) -> bool {
    &&& shaped(rs[i])
    &&& forall|j: int| 0 <= j < rs[i].len() ==> match #[trigger] rs[i][j] {
        Elem::RuleRef(t) => t < rs.len() && (hots[i] || (t >= m && !hots[t as int])),
        _ => true,
    }
    &&& (forall|j: int| 0 <= j < rs[i].len() ==> match #[trigger] rs[i][j] {
        Elem::RuleRef(t) => t < i,
        _ => true,
    }) || loops(rs, m, i)
}

/// Whether a rule takes input at once, refers to cold helpers, or to rules of a lower rank.
pub open spec fn ordered_row(
    rs: Seq<Seq<Elem>>,
    m: int,
    hots: Seq<bool>,
    all: Seq<Seq<char>>,
    rank: spec_fn(Seq<char>) -> nat,
    k: int,
) -> bool {
    &&& shaped(rs[k])
    &&& forall|j: int| 0 <= j < rs[k].len() ==> match #[trigger] rs[k][j] {
        Elem::RuleRef(t) => t < rs.len(),
        _ => true,
    }
    &&& {
        ||| headed_from(rs[k], 0)
        ||| forall|j: int| 0 <= j < rs[k].len() ==> match #[trigger] rs[k][j] {
            Elem::RuleRef(t) => t >= m && !hots[t as int],
            _ => true,
        }
        ||| forall|j: int| 0 <= j < rs[k].len() ==> match #[trigger] rs[k][j] {
            Elem::RuleRef(t) => t < m && rank(all[t as int]) < rank(all[k]),
            _ => true,
        }
    }
}

/// What holds when the first `k` rules are compiled.
pub open spec fn compiled_upto(
    d: Draft,
    k: int,
    hots: Seq<bool>,
    all: Seq<Seq<char>>,
    rank: spec_fn(Seq<char>) -> nat,
) -> bool {
    &&& hots.len() == d.rules.len()
    &&& forall|i: int| all.len() <= i < d.rules.len() ==> #[trigger] settled(d.rules, all.len() as int, hots, i)
    &&& forall|i: int| 0 <= i < k ==> #[trigger] ordered_row(d.rules, all.len() as int, hots, all, rank, i)
}

/// The hots of a draft that has grown.
pub open spec fn longer(hots: Seq<bool>, n: int, hot: bool) -> Seq<bool> {
    Seq::new(n as nat, |i: int| if i < hots.len() {
        hots[i]
    } else {
        hot
    })
}

proof fn lemma_settled_stays(a: Seq<Seq<Elem>>, b: Seq<Seq<Elem>>, m: int, h: Seq<bool>, g: Seq<bool>, i: int)
    requires
        0 <= m <= i < a.len() <= b.len(),
        h.len() == a.len(),
        g.len() == b.len(),
        forall|k: int| m <= k < a.len() ==> #[trigger] b[k] == a[k],
        forall|k: int| 0 <= k < a.len() ==> #[trigger] g[k] == h[k],
        settled(a, m, h, i),
    ensures
        settled(b, m, g, i),
{
    assert(b[i] == a[i]);
    assert forall|j: int| 0 <= j < b[i].len() implies match #[trigger] b[i][j] {
        Elem::RuleRef(t) => t < b.len() && (g[i] || (t >= m && !g[t as int])),
        _ => true,
    } by {
        assert(a[i][j] == b[i][j]);
    }
    if loops(a, m, i) {
        let t = a[i][0]->RuleRef_0 as int;
        assert(b[t] == a[t]);
        if !firm_from(a[t], 0) {
            let u = a[t][0]->RuleRef_0 as int;
            assert(b[u] == a[u]);
        }
        assert(loops(b, m, i));
    } else {
        assert forall|j: int| 0 <= j < b[i].len() implies match #[trigger] b[i][j] {
            Elem::RuleRef(t) => t < i,
            _ => true,
        } by {
            assert(a[i][j] == b[i][j]);
        }
    }
}

/// Helpers that one rule needs are settled.
proof fn lemma_settled(d: Draft, e: Draft, all: Seq<Seq<char>>, hots: Seq<bool>, hot: bool, i: int)
    requires
        helped(d, e, all, d.rules.len() as int, hot),
        all.len() <= d.rules.len(),
        hots.len() == d.rules.len(),
        d.rules.len() <= i < e.rules.len(),
    ensures
        settled(e.rules, all.len() as int, longer(hots, e.rules.len() as int, hot), i),
{
    let m = all.len() as int;
    let lo = d.rules.len() as int;
    let rs = e.rules;
    let g = longer(hots, rs.len() as int, hot);
    assert(helper(rs, lo, m, hot, i));
    assert forall|j: int| 0 <= j < rs[i].len() implies match #[trigger] rs[i][j] {
        Elem::RuleRef(t) => t < rs.len() && (g[i] || (t >= m && !g[t as int])),
        _ => true,
    } by {
        assert(refs_in(rs[i], lo, m, hot, rs.len() as int));
    }
    if refs_in(rs[i], lo, m, hot, i) {
        assert forall|j: int| 0 <= j < rs[i].len() implies match #[trigger] rs[i][j] {
            Elem::RuleRef(t) => t < i,
            _ => true,
        } by {}
    }
}

/// One rule more is compiled.
pub proof fn lemma_row_compiled(
    d: Draft,
    k: int,
    r: Row,
    hots: Seq<bool>,
    all: Seq<Seq<char>>,
    rank: spec_fn(Seq<char>) -> nat,
) -> (more: Seq<bool>)
    requires
        numbered(d, all),
        0 <= k < all.len(),
        all[k] == r.0,
        d.rules.len() <= usize::MAX ==> compiled_upto(d, k, hots, all, rank),
        drawn(r, all, rank),
    ensures
        alternates(d, seq![], seq![' '] + r.1, 0, false) matches Ok((e, row, _)) && {
            let f = defined(e, k, row);
            numbered(f, all) && d.rules.len() <= f.rules.len() && (f.rules.len() <= usize::MAX ==> compiled_upto(
                f,
                k + 1,
                more,
                all,
                rank,
            ))
        },
{
    let m = all.len() as int;
    let s = seq![' '] + r.1;
    let lo = d.rules.len() as int;
    if r.1.len() == 0 {
        assert(skip_white(s, 1) == 1);
        assert(skip_white(s, 0) == 1);
        assert(sequence(d, seq![], s, 0, false) == Ok::<(Draft, Seq<Elem>, int), GrammarError>((d, seq![], 1)));
        let row = seq![Elem::End];
        assert(Seq::<Elem>::empty() + Seq::<Elem>::empty() =~= Seq::<Elem>::empty());
        assert(Seq::<Elem>::empty().push(Elem::End) =~= row);
        assert(alternates(d, seq![], s, 0, false) == Ok::<(Draft, Seq<Elem>, int), GrammarError>((d, row, 1)));
        assert(kept(d, d, all));
        lemma_defined_numbered(d, all, k, row);
        if d.rules.len() <= usize::MAX {
            let more = longer(hots, d.rules.len() as int, true);
            lemma_defined(d, d, k, row, hots, more, all, rank);
            return more;
        }
        hots
    } else {
        let v = choose|v: Seq<Seq<Item>>| #[trigger] drawn_as(r, v, all, rank);
        let hot = !alts_ok(v, all, false);
        assert(s.subrange(0, s.len() as int) =~= s);
        assert(stands(s, 0, alts_text(v)));
        lemma_alts_read(d, all, seq![], s, 0, v, false, lo, hot);
        let (e, row, q) = alternates(d, seq![], s, 0, false)->Ok_0;
        lemma_defined_numbered(e, all, k, row);
        let more = longer(hots, e.rules.len() as int, hot);
        if e.rules.len() <= usize::MAX {
            assert(row.skip(0) =~= row);
            assert forall|i: int| lo <= i < e.rules.len() implies #[trigger] settled(e.rules, m, more, i) by {
                lemma_settled(d, e, all, hots, hot, i);
            }
            if hot && !headed(v) {
                assert(names_only(v)) by {
                    assert forall|j: int| 0 <= j < v.len() implies (#[trigger] v[j]).len() == 1 && v[j][0].op is None
                        && v[j][0].piece is Name by {}
                }
                lemma_names_read(d, all, seq![], s, 0, v);
                assert forall|j: int| 0 <= j < row.len() implies match #[trigger] row[j] {
                    Elem::RuleRef(t) => t < m && rank(all[t as int]) < rank(all[k]),
                    _ => true,
                } by {
                    if let Elem::RuleRef(t) = row[j] {
                        let i = choose|i: int| 0 <= i < v.len() && (#[trigger] v[i])[0].piece == Piece::Name(all[t as int]);
                        assert(v[i].len() == 1);
                    }
                }
            }
            assert(forall|j: int| 0 <= j < row.len() ==> match #[trigger] row[j] {
                Elem::RuleRef(t) => t < e.rules.len(),
                _ => true,
            });
            if !hot {
                assert forall|j: int| 0 <= j < row.len() implies match #[trigger] row[j] {
                    Elem::RuleRef(t) => t >= m && !more[t as int],
                    _ => true,
                } by {}
            }
            lemma_defined(d, e, k, row, hots, more, all, rank);
        }
        more
    }
}

proof fn lemma_defined_numbered(e: Draft, all: Seq<Seq<char>>, k: int, row: Seq<Elem>)
    requires
        numbered(e, all),
        0 <= k < all.len(),
        shaped(row),
    ensures
        numbered(defined(e, k, row), all),
{
    let f = defined(e, k, row);
    assert forall|i: int| 0 <= i < f.rules.len() && f.rules[i].len() > 0 implies shaped(#[trigger] f.rules[i]) by {
        if i != k {
            assert(f.rules[i] == e.rules[i]);
        }
    }
}

/// Defining a rule leaves what holds of the others.
proof fn lemma_defined(
    d: Draft,
    e: Draft,
    k: int,
    row: Seq<Elem>,
    hots: Seq<bool>,
    more: Seq<bool>,
    all: Seq<Seq<char>>,
    rank: spec_fn(Seq<char>) -> nat,
)
    requires
        kept(d, e, all),
        compiled_upto(d, k, hots, all, rank),
        0 <= k < all.len() <= d.rules.len(),
        more.len() == e.rules.len(),
        forall|i: int| 0 <= i < d.rules.len() ==> #[trigger] more[i] == hots[i],
        forall|i: int| d.rules.len() <= i < e.rules.len() ==> #[trigger] settled(e.rules, all.len() as int, more, i),
        shaped(row),
        forall|j: int| 0 <= j < row.len() ==> match #[trigger] row[j] {
            Elem::RuleRef(t) => t < e.rules.len(),
            _ => true,
        },
        ({
            ||| headed_from(row, 0)
            ||| forall|j: int| 0 <= j < row.len() ==> match #[trigger] row[j] {
                Elem::RuleRef(t) => t >= all.len() && !more[t as int],
                _ => true,
            }
            ||| forall|j: int| 0 <= j < row.len() ==> match #[trigger] row[j] {
                Elem::RuleRef(t) => t < all.len() && rank(all[t as int]) < rank(all[k]),
                _ => true,
            }
        }),
    ensures
        compiled_upto(defined(e, k, row), k + 1, more, all, rank),
{
    let m = all.len() as int;
    let f = defined(e, k, row);
    assert forall|i: int| m <= i < f.rules.len() implies #[trigger] settled(f.rules, m, more, i) by {
        if i < d.rules.len() {
            assert(settled(d.rules, m, hots, i));
            lemma_settled_stays(d.rules, f.rules, m, hots, more, i);
        } else {
            assert(settled(e.rules, m, more, i));
            lemma_settled_stays(e.rules, f.rules, m, more, more, i);
        }
    }
    assert forall|i: int| 0 <= i < k + 1 implies #[trigger] ordered_row(f.rules, m, more, all, rank, i) by {
        if i < k {
            assert(ordered_row(d.rules, m, hots, all, rank, i));
            assert(f.rules[i] == d.rules[i]);
            assert forall|j: int| 0 <= j < f.rules[i].len() implies match #[trigger] f.rules[i][j] {
                Elem::RuleRef(t) => t < f.rules.len(),
                _ => true,
            } by {
                assert(d.rules[i][j] == f.rules[i][j]);
            }
            let a = d.rules[i];
            if headed_from(a, 0) {
            } else if forall|j: int| 0 <= j < a.len() ==> match #[trigger] a[j] {
                Elem::RuleRef(t) => t >= m && !hots[t as int],
                _ => true,
            } {
                assert forall|j: int| 0 <= j < f.rules[i].len() implies match #[trigger] f.rules[i][j] {
                    Elem::RuleRef(t) => t >= m && !more[t as int],
                    _ => true,
                } by {
                    assert(a[j] == d.rules[i][j]);
                }
            } else {
                assert forall|j: int| 0 <= j < f.rules[i].len() implies match #[trigger] f.rules[i][j] {
                    Elem::RuleRef(t) => t < m && rank(all[t as int]) < rank(all[i]),
                    _ => true,
                } by {
                    assert(d.rules[i][j] == f.rules[i][j]);
                }
            }
        } else {
            assert(f.rules[k] == row);
        }
    }
}

/// Whether the names of rules are different ones that no helper has.
pub open spec fn own_names(all: Seq<Seq<char>>) -> bool {
    &&& forall|i: int, j: int| 0 <= i < j < all.len() ==> #[trigger] all[i] != #[trigger] all[j]
    &&& forall|i: int| 0 <= i < all.len() ==> !hidden(#[trigger] all[i])
}

pub proof fn lemma_own_index(all: Seq<Seq<char>>, k: int)
    requires
        forall|i: int, j: int| 0 <= i < j < all.len() ==> #[trigger] all[i] != #[trigger] all[j],
        0 <= k < all.len(),
    ensures
        name_index(all, all[k]) == k,
{
    lemma_name_index(all, all[k]);
    lemma_index_found(all, k);
    let p = name_index(all, all[k]);
    if p < k {
        assert(all[p] != all[k]);
    } else if k < p {
        assert(all[k] != all[p]);
    }
}

proof fn lemma_index_found(all: Seq<Seq<char>>, k: int)
    requires
        0 <= k < all.len(),
    ensures
        name_index(all, all[k]) >= 0,
    decreases all.len(),
{
    if k < all.len() - 1 {
        assert(all.drop_last()[k] == all[k]);
        lemma_index_found(all.drop_last(), k);
    }
}

proof fn lemma_absent(names: Seq<Seq<char>>, x: Seq<char>)
    requires
        forall|i: int| 0 <= i < names.len() ==> #[trigger] names[i] != x,
    ensures
        name_index(names, x) < 0,
{
    lemma_name_index(names, x);
}

/// The names of rules, made in order.
proof fn lemma_names_made(rules: Seq<Row>, k: int)
    requires
        own_names(names_of(rules)),
        0 <= k <= rules.len(),
    ensures
        named(defs_of(rules), k).names == names_of(rules).take(k),
        named(defs_of(rules), k).rules == Seq::new(k as nat, |i: int| Seq::<Elem>::empty()),
    decreases k,
{
    let all = names_of(rules);
    let d = named(defs_of(rules), k);
    if k == 0 {
        assert(d.names =~= all.take(0));
        assert(d.rules =~= Seq::new(0, |i: int| Seq::<Elem>::empty()));
    } else {
        lemma_names_made(rules, k - 1);
        let b = named(defs_of(rules), k - 1);
        let x = defs_of(rules)[k - 1].0;
        assert(x == all[k - 1]);
        assert forall|i: int| 0 <= i < b.names.len() implies #[trigger] b.names[i] != x by {
            assert(b.names[i] == all[i]);
            assert(all[i] != all[k - 1]);
        }
        lemma_absent(b.names, x);
        assert(d.names =~= all.take(k));
        assert(d.rules =~= Seq::new(k as nat, |i: int| Seq::<Elem>::empty()));
    }
}

/// Rules that keep the order compile one after the other.
pub proof fn lemma_rules_compiled(rules: Seq<Row>, k: int, rank: spec_fn(Seq<char>) -> nat) -> (hots: Seq<bool>)
    requires
        own_names(names_of(rules)),
        forall|i: int| 0 <= i < rules.len() ==> drawn(#[trigger] rules[i], names_of(rules), rank),
        0 <= k <= rules.len(),
    ensures
        compiled(defs_of(rules), k) matches Ok(d) && numbered(d, names_of(rules)) && (d.rules.len() <= usize::MAX
            ==> compiled_upto(d, k, hots, names_of(rules), rank)),
    decreases k,
{
    let all = names_of(rules);
    let defs = defs_of(rules);
    if k == 0 {
        lemma_names_made(rules, rules.len() as int);
        let d = named(defs, rules.len() as int);
        assert(defs.len() == rules.len());
        assert(d.names =~= all);
        assert(numbered(d, all));
        Seq::new(rules.len(), |i: int| true)
    } else {
        let hots = lemma_rules_compiled(rules, k - 1, rank);
        let d = compiled(defs, k - 1)->Ok_0;
        assert forall|i: int| 0 <= i < all.len() implies #[trigger] d.names[i] == all[i] by {}
        lemma_own_index(all, k - 1);
        lemma_name_index_stays(all, d.names, all[k - 1]);
        assert(defs[k - 1] == (rules[k - 1].0, seq![' '] + rules[k - 1].1));
        assert(interned(d, defs[k - 1].0) == (d, k - 1));
        assert(drawn(rules[k - 1], all, rank));
        lemma_row_compiled(d, k - 1, rules[k - 1], hots, all, rank)
    }
}

/// The highest rank of the first `n` names.
spec fn top_rank(all: Seq<Seq<char>>, rank: spec_fn(Seq<char>) -> nat, n: nat) -> nat
    decreases n,
{
    if n == 0 {
        0
    } else {
        let t = top_rank(all, rank, (n - 1) as nat);
        if rank(all[n - 1]) > t {
            rank(all[n - 1])
        } else {
            t
        }
    }
}

proof fn lemma_top(all: Seq<Seq<char>>, rank: spec_fn(Seq<char>) -> nat, n: nat)
    ensures
        forall|i: int| 0 <= i < n ==> rank(#[trigger] all[i]) <= top_rank(all, rank, n),
    decreases n,
{
    if n > 0 {
        lemma_top(all, rank, (n - 1) as nat);
    }
}

/// The rank of a rule: cold helpers first, then the rules with names, then the other helpers.
spec fn rule_rank(
    n: nat,
    hots: Seq<bool>,
    all: Seq<Seq<char>>,
    rank: spec_fn(Seq<char>) -> nat,
    i: int,
) -> nat {
    if 0 <= i < all.len() {
        n + 1 + rank(all[i])
    } else if i >= 0 && hots[i] {
        (n + 2 + top_rank(all, rank, all.len()) + i) as nat
    } else if i >= 0 {
        i as nat
    } else {
        0
    }
}

/// Rules that are compiled in order go down in rank before they take input.
proof fn lemma_orderly(d: Draft, hots: Seq<bool>, all: Seq<Seq<char>>, rank: spec_fn(Seq<char>) -> nat)
    requires
        numbered(d, all),
        compiled_upto(d, all.len() as int, hots, all, rank),
    ensures
        orderly(d.rules, |i: int| rule_rank(d.rules.len(), hots, all, rank, i)),
{
    let rs = d.rules;
    let m = all.len() as int;
    let n = rs.len();
    let low = |i: int| rule_rank(n, hots, all, rank, i);
    lemma_top(all, rank, all.len());
    assert forall|r: int| 0 <= r < n implies shaped(#[trigger] rs[r]) by {
        if r < m {
            assert(ordered_row(rs, m, hots, all, rank, r));
        } else {
            assert(settled(rs, m, hots, r));
        }
    }
    assert forall|r: int, i: int| 0 <= r < n && 0 <= i < rs[r].len() implies match #[trigger] rs[r][i] {
        Elem::RuleRef(t) => t < n,
        _ => true,
    } by {
        if r < m {
            assert(ordered_row(rs, m, hots, all, rank, r));
        } else {
            assert(settled(rs, m, hots, r));
        }
    }
    assert forall|r: int| 0 <= r < n implies #[trigger] descends(rs, low, r) || braced(rs, low, r) by {
        if r < m {
            lemma_named_order(d, hots, all, rank, r);
        } else {
            lemma_helper_order(d, hots, all, rank, r);
        }
    }
}

proof fn lemma_named_order(d: Draft, hots: Seq<bool>, all: Seq<Seq<char>>, rank: spec_fn(Seq<char>) -> nat, r: int)
    requires
        numbered(d, all),
        compiled_upto(d, all.len() as int, hots, all, rank),
        0 <= r < all.len(),
    ensures
        ({
            let low = |i: int| rule_rank(d.rules.len(), hots, all, rank, i);
            descends(d.rules, low, r) || braced(d.rules, low, r)
        }),
{
    let rs = d.rules;
    let m = all.len() as int;
    let low = |i: int| rule_rank(rs.len(), hots, all, rank, i);
    let row = rs[r];
    assert(ordered_row(rs, m, hots, all, rank, r));
    if headed_from(row, 0) {
        assert forall|i: int| 0 <= i < rs[r].len() && begins_at(rs[r], i) implies quiet(#[trigger] rs[r][i]) by {
            assert(takes(row[i]));
        }
        assert(braced(rs, low, r));
    } else {
        assert forall|i: int| 0 <= i < rs[r].len() implies match #[trigger] rs[r][i] {
            Elem::RuleRef(t) => low(t as int) < low(r),
            _ => true,
        } by {
            assert(row[i] == rs[r][i]);
        }
        assert(descends(rs, low, r));
    }
}

proof fn lemma_helper_order(d: Draft, hots: Seq<bool>, all: Seq<Seq<char>>, rank: spec_fn(Seq<char>) -> nat, r: int)
    requires
        numbered(d, all),
        compiled_upto(d, all.len() as int, hots, all, rank),
        all.len() <= r < d.rules.len(),
    ensures
        ({
            let low = |i: int| rule_rank(d.rules.len(), hots, all, rank, i);
            descends(d.rules, low, r) || braced(d.rules, low, r)
        }),
{
    let rs = d.rules;
    let m = all.len() as int;
    let low = |i: int| rule_rank(rs.len(), hots, all, rank, i);
    lemma_top(all, rank, all.len());
    assert(settled(rs, m, hots, r));
    if loops(rs, m, r) {
        let t = rs[r][0]->RuleRef_0 as int;
        assert(firm(rs, t));
        assert forall|i: int| 0 <= i < rs[r].len() && begins_at(rs[r], i) implies quiet(#[trigger] rs[r][i]) || match rs[r][i] {
            Elem::RuleRef(u) => low(u as int) < low(r) && firm(rs, u as int),
            _ => false,
        } by {
            if i > 0 {
                assert(rs[r][i - 1] == Elem::Alt);
                assert(rs[r][i] == Elem::End);
            }
        }
        assert(braced(rs, low, r));
    } else {
        assert forall|i: int| 0 <= i < rs[r].len() implies match #[trigger] rs[r][i] {
            Elem::RuleRef(t) => low(t as int) < low(r),
            _ => true,
        } by {
            if let Elem::RuleRef(t) = rs[r][i] {
                assert(t < r);
                if t < m {
                    assert(rank(all[t as int]) <= top_rank(all, rank, all.len()));
                }
            }
        }
        assert(descends(rs, low, r));
    }
}

/// A machine always comes to rest on a grammar that is written rule by rule, where each rule takes
/// input at once, refers to no other rule, or is one of others of a lower rank, and only what takes
/// input is repeated without end.
pub proof fn drawn_rules_are_sound(rules: Seq<Row>, rank: spec_fn(Seq<char>) -> nat, k: int)
    requires
        forall|i: int| 0 <= i < rules.len() ==> clean(#[trigger] rules[i]),
        own_names(names_of(rules)),
        forall|i: int| 0 <= i < rules.len() ==> drawn(#[trigger] rules[i], names_of(rules), rank),
        0 <= k < rules.len(),
        rules[k].0 == seq!['r', 'o', 'o', 't'],
    ensures
        grammar_of(rules_text(rules)) matches Ok((rs, root)) && rules.len() <= rs.len() && (rs.len() <= usize::MAX
            ==> sound_from(rs, root)),
{
    let all = names_of(rules);
    let n = rules.len() as int;
    written_rules_are_read(rules);
    let hots = lemma_rules_compiled(rules, n, rank);
    let d = compiled(defs_of(rules), n)->Ok_0;
    assert forall|i: int| 0 <= i < all.len() implies #[trigger] d.names[i] == all[i] by {}
    lemma_own_index(all, k);
    lemma_name_index_stays(all, d.names, all[k]);
    assert(grammar_of(rules_text(rules)) == Ok::<(Seq<Seq<Elem>>, int), GrammarError>((d.rules, k)));
    if d.rules.len() <= usize::MAX {
        lemma_orderly(d, hots, all, rank);
        orderly_grammars_are_sound(d.rules, |i: int| rule_rank(d.rules.len(), hots, all, rank, i), k);
    }
}

} // verus!
