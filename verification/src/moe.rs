//! Mixture-of-experts layers: which rows go to which expert, and when one kernel can run all
//! experts at once.
use vstd::prelude::*;
use crate::linear::{LinearPlan, Weights};
use crate::tensors::{find, name_with, present, TensorInfo};
use crate::text::chars_of;

verus! {

/// The places in a routing table that chose an expert, in order.
pub open spec fn slots_of(flat: Seq<i64>, e: int) -> Seq<i64>
    decreases flat.len(),
{
    if flat.len() == 0 {
        seq![]
    } else {
        let rest = slots_of(flat.drop_last(), e);
        if flat.last() == e {
            rest.push((flat.len() - 1) as i64)
        } else {
            rest
        }
    }
}

/// The rows of these places in a table of `k` choices per row.
pub open spec fn rows_of(slots: Seq<i64>, k: int) -> Seq<i64> {
    Seq::new(slots.len(), |i: int| (slots[i] as int / k) as i64)
}

/// The places in a routing table that chose an expert: where its weight for each of its rows
/// stands.
pub fn expert_slots(flat: &Vec<i64>, e: usize) -> (r: Vec<i64>)
    requires
        flat.len() <= i64::MAX,
    ensures
        r@ == slots_of(flat@, e as int),
{
    let mut r: Vec<i64> = Vec::new();
    let mut s: usize = 0;
    assert(flat@.take(0) =~= seq![]);
    while s < flat.len()
        invariant
            flat.len() <= i64::MAX,
            s <= flat.len(),
            r@ == slots_of(flat@.take(s as int), e as int),
        decreases flat.len() - s,
    {
        let x: i64 = flat[s];
        if x >= 0 && x as u64 == e as u64 {
            r.push(s as i64);
        }
        s = s + 1;
        proof {
            let t = flat@.take(s as int);
            assert(t.drop_last() =~= flat@.take(s - 1));
            assert(t.last() == x);
        }
    }
    assert(flat@.take(s as int) =~= flat@);
    r
}

/// The rows that chose each expert, `k` choices per row.
pub fn buckets(flat: &Vec<i64>, k: usize, experts: usize) -> (r: Vec<Vec<i64>>)
    requires
        k > 0,
        flat.len() <= i64::MAX,
        forall|i: int| 0 <= i < flat.len() ==> 0 <= #[trigger] flat[i] < experts,
    ensures
        r.len() == experts,
        forall|e: int| 0 <= e < experts ==> (#[trigger] r@[e])@ == rows_of(slots_of(flat@, e), k as int),
{
    let mut r: Vec<Vec<i64>> = Vec::new();
    let mut e: usize = 0;
    assert(flat@.take(0) =~= seq![]);
    while e < experts
        invariant
            e <= experts,
            r.len() == e,
            flat@.take(0) == Seq::<i64>::empty(),
            forall|x: int| 0 <= x < e ==> (#[trigger] r@[x])@ == rows_of(slots_of(flat@.take(0), x), k as int),
        decreases experts - e,
    {
        let none: Vec<i64> = Vec::new();
        assert(none@ =~= rows_of(slots_of(flat@.take(0), e as int), k as int));
        r.push(none);
        e = e + 1;
    }
    let mut s: usize = 0;
    while s < flat.len()
        invariant
            k > 0,
            flat.len() <= i64::MAX,
            forall|i: int| 0 <= i < flat.len() ==> 0 <= #[trigger] flat[i] < experts,
            s <= flat.len(),
            r.len() == experts,
            forall|x: int|
                0 <= x < experts ==> (#[trigger] r@[x])@ == rows_of(slots_of(flat@.take(s as int), x), k as int),
        decreases flat.len() - s,
    {
        assert(0 <= flat[s as int] < experts);
        let to: usize = flat[s] as usize;
        let row: i64 = (s / k) as i64;
        proof {
            assert(s as int / k as int <= s) by (nonlinear_arith)
                requires
                    k >= 1,
                    s >= 0,
            ;
        }
        let ghost before = r@;
        r[to].push(row);
        s = s + 1;
        proof {
            let t = flat@.take(s as int);
            assert(t.drop_last() =~= flat@.take(s - 1));
            assert(t.last() == to);
            assert forall|x: int| 0 <= x < experts implies (#[trigger] r@[x])@ == rows_of(slots_of(t, x), k as int) by {
                assert(before[x]@ == rows_of(slots_of(flat@.take(s - 1), x), k as int));
                assert(r@[x]@ =~= rows_of(slots_of(t, x), k as int));
            }
        }
    }
    assert(flat@.take(s as int) =~= flat@);
    r
}

/// How many places the first `n` experts have.
pub open spec fn places(flat: Seq<i64>, n: nat) -> nat
    decreases n,
{
    if n == 0 {
        0
    } else {
        places(flat, (n - 1) as nat) + slots_of(flat, n - 1).len()
    }
}

proof fn lemma_places(flat: Seq<i64>, n: nat)
    requires
        flat.len() > 0,
        flat.last() >= 0,
    ensures
        places(flat, n) == places(flat.drop_last(), n) + if flat.last() < n {
            1nat
        } else {
            0nat
        },
    decreases n,
{
    if n > 0 {
        lemma_places(flat, (n - 1) as nat);
    }
}

proof fn lemma_no_places(n: nat)
    ensures
        places(seq![], n) == 0,
    decreases n,
{
    if n > 0 {
        lemma_no_places((n - 1) as nat);
    }
}

/// Every choice of every row lands with exactly one expert.
pub proof fn every_choice_lands_once(flat: Seq<i64>, experts: nat)
    requires
        forall|i: int| 0 <= i < flat.len() ==> 0 <= #[trigger] flat[i] < experts,
    ensures
        places(flat, experts) == flat.len(),
    decreases flat.len(),
{
    if flat.len() == 0 {
        assert(flat =~= seq![]);
        lemma_no_places(experts);
    } else {
        let rest = flat.drop_last();
        assert forall|i: int| 0 <= i < rest.len() implies 0 <= #[trigger] rest[i] < experts by {
            assert(rest[i] == flat[i]);
        }
        every_choice_lands_once(rest, experts);
        assert(0 <= flat[flat.len() - 1] < experts);
        lemma_places(flat, experts);
    }
}

/// The places of an expert are exactly those of the routing table that chose it, in order.
pub proof fn experts_get_the_places_that_chose_them(flat: Seq<i64>, e: int)
    requires
        flat.len() <= i64::MAX,
    ensures
        forall|j: int| 0 <= j < flat.len() ==> (#[trigger] slots_of(flat, e).contains(j as i64) <==> flat[j] == e),
        forall|a: int, b: int| 0 <= a < b < slots_of(flat, e).len() ==> slots_of(flat, e)[a] < slots_of(flat, e)[b],
        forall|a: int| 0 <= a < slots_of(flat, e).len() ==> 0 <= #[trigger] slots_of(flat, e)[a] < flat.len(),
    decreases flat.len(),
{
    if flat.len() > 0 {
        let rest = flat.drop_last();
        let s0 = slots_of(rest, e);
        let s = slots_of(flat, e);
        let n = flat.len() - 1;
        experts_get_the_places_that_chose_them(rest, e);
        assert forall|j: int| 0 <= j < flat.len() implies (#[trigger] s.contains(j as i64) <==> flat[j] == e) by {
            if j < n {
                assert(rest[j] == flat[j]);
                assert(s0.contains(j as i64) <==> rest[j] == e);
                if s0.contains(j as i64) {
                    let a = choose|a: int| 0 <= a < s0.len() && s0[a] == j as i64;
                    assert(s[a] == j as i64);
                }
                if s.contains(j as i64) {
                    let a = choose|a: int| 0 <= a < s.len() && s[a] == j as i64;
                    assert(a < s0.len());
                    assert(s0[a] == j as i64);
                }
            } else {
                if flat[j] == e {
                    assert(s[s.len() - 1] == j as i64);
                }
                if s.contains(j as i64) {
                    let a = choose|a: int| 0 <= a < s.len() && s[a] == j as i64;
                    if a < s0.len() {
                        assert(s0[a] < rest.len());
                    }
                }
            }
        }
    }
}

/// An expert: its three layers.
pub struct ExpertPlan {
    pub gate: LinearPlan,
    pub up: LinearPlan,
    pub down: LinearPlan,
}

/// What a kernel needs to know of a layer's trellis.
pub open spec fn parts_of(p: LinearPlan) -> Option<(i64, bool, bool)> {
    match p.weights {
        Weights::Exl3 { k, mcg, mul1, bias } => if bias {
            None
        } else {
            Some((k, mcg, mul1))
        },
        Weights::Fp16 { .. } => None,
    }
}

/// Which of an expert's layers.
#[derive(Clone, Copy, Debug, PartialEq, Eq, Structural)]
pub enum Which {
    Gate,
    Up,
    Down,
}

/// A layer of an expert.
pub open spec fn layer_of(e: ExpertPlan, w: Which) -> LinearPlan {
    match w {
        Which::Gate => e.gate,
        Which::Up => e.up,
        Which::Down => e.down,
    }
}

/// What all these experts have in common of one layer, where they do.
pub open spec fn common(experts: Seq<ExpertPlan>, w: Which) -> Option<(i64, bool, bool)> {
    let first = parts_of(layer_of(experts[0], w));
    if first is Some && forall|i: int| 0 <= i < experts.len() ==> parts_of(layer_of(#[trigger] experts[i], w)) == first {
        first
    } else {
        None
    }
}

/// Whether the first expert has the widths of the configuration, without padding.
pub open spec fn unpadded(e: ExpertPlan, hidden: i64, interm: i64) -> bool {
    &&& e.gate.in_features == hidden
    &&& e.up.in_features == hidden
    &&& e.up.out_features == interm
    &&& e.gate.out_features == interm
    &&& e.down.in_features == interm
    &&& e.down.out_features == hidden
}

fn find_common(experts: &Vec<ExpertPlan>, w: Which) -> (r: Option<(i64, bool, bool)>)
    requires
        experts.len() > 0,
    ensures
        r == common(experts@, w),
{
    let first = match w {
        Which::Gate => experts[0].gate.exl3_parts(),
        Which::Up => experts[0].up.exl3_parts(),
        Which::Down => experts[0].down.exl3_parts(),
    };
    let (k, mcg, mul1) = match first {
        Some(p) => p,
        None => {
            return None;
        },
    };
    let mut i: usize = 0;
    while i < experts.len()
        invariant
            i <= experts.len(),
            experts.len() > 0,
            parts_of(layer_of(experts@[0], w)) == Some((k, mcg, mul1)),
            forall|j: int| 0 <= j < i ==> parts_of(layer_of(#[trigger] experts@[j], w)) == Some((k, mcg, mul1)),
        decreases experts.len() - i,
    {
        let p = match w {
            Which::Gate => experts[i].gate.exl3_parts(),
            Which::Up => experts[i].up.exl3_parts(),
            Which::Down => experts[i].down.exl3_parts(),
        };
        let same = match p {
            Some((a, b, c)) => a == k && b == mcg && c == mul1,
            None => false,
        };
        if !same {
            assert(parts_of(layer_of(experts@[i as int], w)) != Some((k, mcg, mul1)));
            return None;
        }
        i = i + 1;
    }
    Some((k, mcg, mul1))
}

/// What the three layers of all experts have in common, where one kernel can run them all: on
/// the device, with the widths of the configuration, and alike.
pub fn fused_parts(experts: &Vec<ExpertPlan>, hidden: i64, interm: i64, on_device: bool) -> (r: Option<
    ((i64, bool, bool), (i64, bool, bool), (i64, bool, bool)),
>)
    ensures
        r == if experts.len() > 0 && on_device && unpadded(experts@[0], hidden, interm) && common(
            experts@,
            Which::Gate,
        ) is Some && common(experts@, Which::Up) is Some && common(experts@, Which::Down) is Some {
            Some(
                (
                    common(experts@, Which::Gate)->0,
                    common(experts@, Which::Up)->0,
                    common(experts@, Which::Down)->0,
                ),
            )
        } else {
            None
        },
{
    if experts.len() == 0 || !on_device {
        return None;
    }
    let e = &experts[0];
    if e.gate.in_features != hidden || e.up.in_features != hidden || e.up.out_features != interm
        || e.gate.out_features != interm || e.down.in_features != interm || e.down.out_features != hidden {
        return None;
    }
    match (find_common(experts, Which::Gate), find_common(experts, Which::Up), find_common(experts, Which::Down)) {
        (Some(g), Some(u), Some(d)) => Some((g, u, d)),
        _ => None,
    }
}

/// Whether all sparse layers of a stack, and at least one, run in one kernel.
pub fn all_fused(layers: &Vec<Option<bool>>) -> (r: bool)
    ensures
        r == ((exists|i: int| 0 <= i < layers.len() && #[trigger] layers[i] is Some) && forall|i: int|
            0 <= i < layers.len() ==> #[trigger] layers[i] != Some(false)),
{
    let mut any: bool = false;
    let mut i: usize = 0;
    while i < layers.len()
        invariant
            i <= layers.len(),
            any == exists|j: int| 0 <= j < i && #[trigger] layers[j] is Some,
            forall|j: int| 0 <= j < i ==> #[trigger] layers[j] != Some(false),
        decreases layers.len() - i,
    {
        match layers[i] {
            Some(fused) => {
                if !fused {
                    assert(layers[i as int] == Some(false));
                    return false;
                }
                any = true;
                assert(layers[i as int] is Some);
            },
            None => {},
        }
        i = i + 1;
    }
    any
}

/// Whether the tensors of a shared expert stand under a key.
pub open spec fn has_down(infos: Seq<TensorInfo>, key: Seq<char>) -> bool {
    present(infos, key + ".down_proj.trellis"@) || present(infos, key + ".down_proj.weight"@)
}

/// A shared expert of a layer.
pub enum SharedExpert {
    /// There is none.
    Absent,
    /// Its tensors stand under this key.
    At { key: String },
    /// It should be there, but its tensors are not.
    Missing,
}

/// The shared expert of the layer under `key`, which is `width` wide.
pub fn shared_expert(infos: &Vec<TensorInfo>, key: &str, width: i64) -> (r: SharedExpert)
    ensures
        if width == 0 {
            r is Absent
        } else if has_down(infos@, key@ + ".shared_experts"@) {
            r matches SharedExpert::At { key: k } && k@ == key@ + ".shared_experts"@
        } else if has_down(infos@, key@ + ".shared_expert"@) {
            r matches SharedExpert::At { key: k } && k@ == key@ + ".shared_expert"@
        } else {
            r is Missing
        },
{
    if width == 0 {
        return SharedExpert::Absent;
    }
    let k = chars_of(key);
    let many = name_with(&k, ".shared_experts");
    if found_down(infos, &many) {
        return SharedExpert::At { key: many };
    }
    let one = name_with(&k, ".shared_expert");
    if found_down(infos, &one) {
        return SharedExpert::At { key: one };
    }
    SharedExpert::Missing
}

fn found_down(infos: &Vec<TensorInfo>, key: &String) -> (r: bool)
    ensures
        r == has_down(infos@, key@),
{
    let k = chars_of(key.as_str());
    let a = name_with(&k, ".down_proj.trellis");
    let b = name_with(&k, ".down_proj.weight");
    find(infos, a.as_str()).is_some() || find(infos, b.as_str()).is_some()
}

} // verus!
