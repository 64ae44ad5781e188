//! Grammars on which a machine always comes to rest.
use vstd::prelude::*;
use vstd::set_lib::{lemma_int_range, lemma_len_subset, set_int_range};
use crate::filter::automaton::{closed_under, probe, probe_alts, shaped, sound_from, sound_rule, starts, tidy, Elem};
use crate::filter::constants::lemma_starts;

verus! {

/// Whether an element takes input.
pub open spec fn takes(e: Elem) -> bool {
    e is Char || e is CharNot
}

/// Whether, from `i` on, an element that takes input comes before the alternate ends.
pub open spec fn reaches(row: Seq<Elem>, i: int) -> bool {
    exists|j: int|
        #![trigger row[j]]
        i <= j < row.len() && takes(row[j]) && forall|k: int| i <= k < j ==> #[trigger] row[k] != Elem::End && row[k]
            != Elem::Alt
}

/// Whether every alternate that begins at `k` or behind it takes input.
pub open spec fn firm_from(row: Seq<Elem>, k: int) -> bool {
    forall|i: int| k <= i < row.len() && (i == k || row[i - 1] == Elem::Alt) ==> #[trigger] reaches(row, i)
}

/// Whether a rule takes input, whichever way it is passed: itself, or by the one rule that it is.
pub open spec fn firm(rs: Seq<Seq<Elem>>, t: int) -> bool {
    &&& 0 <= t < rs.len()
    &&& firm_from(rs[t], 0) || (rs[t].len() == 2 && match rs[t][0] {
        Elem::RuleRef(g) => g < rs.len() && firm_from(rs[g as int], 0),
        _ => false,
    })
}

/// Whether a rule refers to rules of a lower rank only.
pub open spec fn descends(rs: Seq<Seq<Elem>>, rank: spec_fn(int) -> nat, r: int) -> bool {
    forall|i: int| 0 <= i < rs[r].len() ==> match #[trigger] rs[r][i] {
        Elem::RuleRef(t) => rank(t as int) < rank(r),
        _ => true,
    }
}

/// Whether an alternate begins at `i`.
pub open spec fn begins_at(row: Seq<Elem>, i: int) -> bool {
    i == 0 || row[i - 1] == Elem::Alt
}

/// Whether the machine rests at an element, or has passed the rule.
pub open spec fn quiet(e: Elem) -> bool {
    takes(e) || e is End || e is Alt
}

/// Whether a rule begins, in each alternate, with what takes input or nothing, or with a rule of a
/// lower rank that takes input.
pub open spec fn braced(rs: Seq<Seq<Elem>>, rank: spec_fn(int) -> nat, r: int) -> bool {
    forall|i: int|
        0 <= i < rs[r].len() && begins_at(rs[r], i) ==> quiet(#[trigger] rs[r][i]) || match rs[r][i] {
            Elem::RuleRef(t) => rank(t as int) < rank(r) && firm(rs, t as int),
            _ => false,
        }
}

/// Whether all rules are defined, refer to rules that there are, and go down in rank before they
/// take input.
pub open spec fn orderly(rs: Seq<Seq<Elem>>, rank: spec_fn(int) -> nat) -> bool {
    &&& forall|r: int| 0 <= r < rs.len() ==> shaped(#[trigger] rs[r])
    &&& forall|r: int, i: int|
        0 <= r < rs.len() && 0 <= i < rs[r].len() ==> match #[trigger] rs[r][i] {
            Elem::RuleRef(t) => t < rs.len(),
            _ => true,
        }
    &&& forall|r: int| 0 <= r < rs.len() ==> #[trigger] descends(rs, rank, r) || braced(rs, rank, r)
}

/// How many rules have a lower rank.
pub open spec fn place(n: nat, rank: spec_fn(int) -> nat, r: int) -> nat {
    set_int_range(0, n as int).filter(|t: int| rank(t) < rank(r)).len()
}

proof fn lemma_place(n: nat, rank: spec_fn(int) -> nat, r: int)
    requires
        0 <= r < n,
    ensures
        place(n, rank, r) < n,
        forall|t: int| 0 <= t < n && rank(t) < rank(r) ==> #[trigger] place(n, rank, t) < place(n, rank, r),
{
    let all = set_int_range(0, n as int);
    lemma_int_range(0, n as int);
    let mine = all.filter(|t: int| rank(t) < rank(r));
    assert(mine.insert(r).subset_of(all));
    lemma_len_subset(mine.insert(r), all);
    assert forall|t: int| 0 <= t < n && rank(t) < rank(r) implies #[trigger] place(n, rank, t) < place(n, rank, r) by {
        let its = all.filter(|u: int| rank(u) < rank(t));
        assert(its.insert(t).subset_of(mine));
        lemma_len_subset(its.insert(t), mine);
    }
}

proof fn lemma_begins(rs: Seq<Seq<Elem>>, r: int)
    requires
        0 <= r < rs.len(),
        shaped(rs[r]),
    ensures
        forall|a: int|
            0 <= a < starts(rs[r]).len() ==> 0 <= #[trigger] starts(rs[r])[a] < rs[r].len() && begins_at(
                rs[r],
                starts(rs[r])[a],
            ),
{
    let row = rs[r];
    lemma_starts(row, row.len() as int);
    assert forall|a: int| 0 <= a < starts(row).len() implies 0 <= #[trigger] starts(row)[a] < row.len() && begins_at(
        row,
        starts(row)[a],
    ) by {
        let p = starts(row)[a];
        if p == row.len() {
            assert(row[p - 1] == Elem::End);
        }
    }
}

/// What is probed of alternates, from what is probed of each.
proof fn lemma_alts(rs: Seq<Seq<Elem>>, r: int, sts: Seq<int>, d: nat)
    requires
        0 <= r < rs.len(),
        forall|a: int|
            0 <= a < sts.len() ==> 0 <= #[trigger] sts[a] < rs[r].len() && probe(rs, r, sts[a], d) is Some,
    ensures
        probe_alts(rs, r, sts, d) is Some,
        (forall|a: int| 0 <= a < sts.len() ==> probe(rs, r, #[trigger] sts[a], d) == Some(false)) ==> probe_alts(
            rs,
            r,
            sts,
            d,
        ) == Some(false),
    decreases sts.len(),
{
    if sts.len() > 0 {
        let prev = sts.drop_last();
        assert forall|a: int| 0 <= a < prev.len() implies 0 <= #[trigger] prev[a] < rs[r].len() && probe(rs, r, prev[a], d) is Some by {
            assert(prev[a] == sts[a]);
        }
        lemma_alts(rs, r, prev, d);
        assert(sts[sts.len() - 1] == sts.last());
        if forall|a: int| 0 <= a < sts.len() ==> probe(rs, r, #[trigger] sts[a], d) == Some(false) {
            assert forall|a: int| 0 <= a < prev.len() implies probe(rs, r, #[trigger] prev[a], d) == Some(false) by {
                assert(prev[a] == sts[a]);
            }
        }
    }
}

/// An alternate that takes input does not end without it.
proof fn lemma_reaches(rs: Seq<Seq<Elem>>, r: int, i: int, d: nat)
    requires
        0 <= r < rs.len(),
        0 <= i < rs[r].len(),
        reaches(rs[r], i),
        probe(rs, r, i, d) is Some,
    ensures
        probe(rs, r, i, d) == Some(false),
    decreases rs[r].len() - i,
{
    let row = rs[r];
    let j = choose|j: int|
        #![trigger row[j]]
        i <= j < row.len() && takes(row[j]) && forall|k: int| i <= k < j ==> #[trigger] row[k] != Elem::End && row[k]
            != Elem::Alt;
    if i < j {
        assert(row[i] != Elem::End && row[i] != Elem::Alt);
        if !takes(row[i]) {
            assert(i + 1 <= j < row.len() && takes(row[j]));
            assert(reaches(row, i + 1));
            if probe(rs, r, i, d) != Some(false) {
                assert(probe(rs, r, i + 1, d) == probe(rs, r, i, d));
                lemma_reaches(rs, r, i + 1, d);
            }
        }
    }
}

proof fn lemma_firm_row(rs: Seq<Seq<Elem>>, r: int, d: nat)
    requires
        0 <= r < rs.len(),
        shaped(rs[r]),
        firm_from(rs[r], 0),
        probe_alts(rs, r, starts(rs[r]), d) is Some,
    ensures
        probe_alts(rs, r, starts(rs[r]), d) == Some(false),
{
    lemma_begins(rs, r);
    let sts = starts(rs[r]);
    lemma_each(rs, r, sts, d);
    assert forall|a: int| 0 <= a < sts.len() implies probe(rs, r, #[trigger] sts[a], d) == Some(false) by {
        assert(reaches(rs[r], sts[a]));
        lemma_reaches(rs, r, sts[a], d);
    }
    lemma_alts(rs, r, sts, d);
}

proof fn lemma_each(rs: Seq<Seq<Elem>>, r: int, sts: Seq<int>, d: nat)
    requires
        probe_alts(rs, r, sts, d) is Some,
    ensures
        forall|a: int| 0 <= a < sts.len() ==> probe(rs, r, #[trigger] sts[a], d) is Some,
    decreases sts.len(),
{
    if sts.len() > 0 {
        let prev = sts.drop_last();
        lemma_each(rs, r, prev, d);
        assert forall|a: int| 0 <= a < sts.len() implies probe(rs, r, #[trigger] sts[a], d) is Some by {
            if a < prev.len() {
                assert(prev[a] == sts[a]);
            }
        }
    }
}

proof fn lemma_firm(rs: Seq<Seq<Elem>>, r: int, d: nat)
    requires
        forall|t: int| 0 <= t < rs.len() ==> shaped(#[trigger] rs[t]),
        firm(rs, r),
        probe_alts(rs, r, starts(rs[r]), d) is Some,
    ensures
        probe_alts(rs, r, starts(rs[r]), d) == Some(false),
{
    assert(shaped(rs[r]));
    if firm_from(rs[r], 0) {
        lemma_firm_row(rs, r, d);
    } else {
        let g = rs[r][0]->RuleRef_0 as int;
        let sts = starts(rs[r]);
        lemma_begins(rs, r);
        lemma_each(rs, r, sts, d);
        assert(rs[r][1] == Elem::End);
        assert forall|a: int| 0 <= a < sts.len() implies probe(rs, r, #[trigger] sts[a], d) == Some(false) by {
            assert(begins_at(rs[r], sts[a]));
            assert(sts[a] == 0);
            assert(probe(rs, r, 0, d) is Some);
            assert(shaped(rs[g]));
            lemma_firm_row(rs, g, (d - 1) as nat);
        }
        lemma_alts(rs, r, sts, d);
    }
}

/// From the start of a rule the machine comes to rest within as many calls as its rank.
proof fn lemma_rests(rs: Seq<Seq<Elem>>, rank: spec_fn(int) -> nat, r: int, d: nat)
    requires
        orderly(rs, rank),
        0 <= r < rs.len(),
        d >= rank(r),
    ensures
        probe_alts(rs, r, starts(rs[r]), d) is Some,
    decreases rank(r), rs[r].len() + 1,
{
    let sts = starts(rs[r]);
    lemma_begins(rs, r);
    assert forall|a: int| 0 <= a < sts.len() implies 0 <= #[trigger] sts[a] < rs[r].len() && probe(rs, r, sts[a], d) is Some by {
        let i = sts[a];
        assert(begins_at(rs[r], i));
        if descends(rs, rank, r) {
            lemma_descends(rs, rank, r, i, d);
        } else {
            assert(braced(rs, rank, r));
            if !quiet(rs[r][i]) {
                let t = rs[r][i]->RuleRef_0 as int;
                lemma_rests(rs, rank, t, (d - 1) as nat);
                lemma_firm(rs, t, (d - 1) as nat);
            }
        }
    }
    lemma_alts(rs, r, sts, d);
}

proof fn lemma_descends(rs: Seq<Seq<Elem>>, rank: spec_fn(int) -> nat, r: int, i: int, d: nat)
    requires
        orderly(rs, rank),
        0 <= r < rs.len(),
        0 <= i < rs[r].len(),
        d >= rank(r),
        descends(rs, rank, r),
    ensures
        probe(rs, r, i, d) is Some,
    decreases rank(r), rs[r].len() - i,
{
    assert(shaped(rs[r]));
    let e = rs[r][i];
    if i < rs[r].len() - 1 {
        match e {
            Elem::RuleRef(t) => {
                assert(rank(t as int) < rank(r));
                lemma_rests(rs, rank, t as int, (d - 1) as nat);
                lemma_descends(rs, rank, r, i + 1, d);
            },
            Elem::CharRngUpper(_) => {
                lemma_descends(rs, rank, r, i + 1, d);
            },
            Elem::CharAlt(_) => {
                lemma_descends(rs, rank, r, i + 1, d);
            },
            _ => {},
        }
    }
}

/// Wherever the machine stands it comes to rest.
proof fn lemma_anywhere(rs: Seq<Seq<Elem>>, rank: spec_fn(int) -> nat, r: int, i: int)
    requires
        orderly(rs, rank),
        forall|t: int| 0 <= t < rs.len() ==> #[trigger] rank(t) < rs.len(),
        0 <= r < rs.len(),
        0 <= i < rs[r].len(),
    ensures
        probe(rs, r, i, rs.len()) is Some,
    decreases rs[r].len() - i,
{
    assert(shaped(rs[r]));
    let e = rs[r][i];
    if i < rs[r].len() - 1 {
        match e {
            Elem::RuleRef(t) => {
                assert(rank(t as int) < rs.len());
                lemma_rests(rs, rank, t as int, (rs.len() - 1) as nat);
                lemma_anywhere(rs, rank, r, i + 1);
            },
            Elem::CharRngUpper(_) => {
                lemma_anywhere(rs, rank, r, i + 1);
            },
            Elem::CharAlt(_) => {
                lemma_anywhere(rs, rank, r, i + 1);
            },
            _ => {},
        }
    }
}

/// A machine always comes to rest on a grammar that goes down in rank before it takes input.
pub proof fn orderly_grammars_are_sound(rs: Seq<Seq<Elem>>, rank: spec_fn(int) -> nat, root: int)
    requires
        orderly(rs, rank),
        0 <= root < rs.len(),
    ensures
        sound_from(rs, root),
{
    let n = rs.len();
    let low = |r: int| place(n, rank, r);
    assert forall|t: int| 0 <= t < n implies #[trigger] low(t) < n by {
        lemma_place(n, rank, t);
    }
    assert(orderly(rs, low)) by {
        assert forall|r: int| 0 <= r < n implies #[trigger] descends(rs, low, r) || braced(rs, low, r) by {
            lemma_place(n, rank, r);
            if descends(rs, rank, r) {
                assert forall|i: int| 0 <= i < rs[r].len() implies match #[trigger] rs[r][i] {
                    Elem::RuleRef(t) => low(t as int) < low(r),
                    _ => true,
                } by {
                    if let Elem::RuleRef(t) = rs[r][i] {
                        assert(rank(t as int) < rank(r));
                        assert(place(n, rank, t as int) < place(n, rank, r));
                    }
                }
            } else {
                assert(braced(rs, rank, r));
                assert forall|i: int| 0 <= i < rs[r].len() && begins_at(rs[r], i) implies quiet(
                    #[trigger] rs[r][i],
                ) || match rs[r][i] {
                    Elem::RuleRef(t) => low(t as int) < low(r) && firm(rs, t as int),
                    _ => false,
                } by {
                    if let Elem::RuleRef(t) = rs[r][i] {
                        assert(rank(t as int) < rank(r));
                        assert(place(n, rank, t as int) < place(n, rank, r));
                    }
                }
            }
        }
    }
    let live = set_int_range(0, n as int);
    assert forall|r: int| #[trigger] live.contains(r) implies sound_rule(rs, r) by {
        assert(shaped(rs[r]));
        assert forall|i: int| 0 <= i < rs[r].len() implies #[trigger] probe(rs, r, i, rs.len()) is Some by {
            lemma_anywhere(rs, low, r, i);
        }
    }
    assert(closed_under(rs, live));
    assert(live.contains(root));
    assert(tidy(rs));
}

} // verus!
