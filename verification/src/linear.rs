//! Linear layers: where their weights are in a checkpoint, how they are padded, and which of
//! their outputs a pruned layer keeps.
use vstd::prelude::*;
use crate::arith::{divide, quotient};
use crate::sorted::{insert, rising};
use crate::tensors::{find, info_of, name_with, present, TensorInfo};
use crate::text::{chars_of, string_of};

verus! {

/// How many outputs a layer keeps or drops together.
pub const BLOCK: i64 = 128;

/// A width rounded up to whole blocks.
pub open spec fn padded(x: int) -> int {
    quotient(x + 127, 128) * 128
}

/// A width rounded up to whole blocks.
pub fn pad128(x: i64) -> (r: i64)
    requires
        x <= i64::MAX - 127,
    ensures
        r == padded(x as int),
        x >= 0 ==> r % 128 == 0 && x <= r < x + 128,
{
    divide(x + 127, 128) * 128
}

/// How the weights of a layer are stored.
#[derive(Clone, Copy, Debug, PartialEq, Eq, Structural)]
pub enum Weights {
    /// Plain half-precision values. `pad` where they do not fill the padded layer.
    Fp16 { pad: bool, bias: bool },
    /// Trellis-coded values of `k` bits.
    Exl3 { k: i64, mcg: bool, mul1: bool, bias: bool },
}

/// A layer as it is to be loaded.
pub struct LinearPlan {
    /// Under which key its tensors stand.
    pub key: String,
    pub in_features: i64,
    pub out_features: i64,
    pub in_unpadded: i64,
    pub out_unpadded: i64,
    pub trim_padded_out: bool,
    pub weights: Weights,
}

/// Why a layer cannot be loaded.
pub enum LinearError {
    /// The scales of its rows are packed.
    PackedScales { key: String },
    Missing { name: String },
    /// There are no weights.
    NoTensors,
}

/// Whether a key has weights.
pub open spec fn weighted(infos: Seq<TensorInfo>, key: Seq<char>) -> bool {
    present(infos, key + ".trellis"@) || present(infos, key + ".weight"@)
}

/// How the weights under a key are stored.
pub open spec fn weights_of(infos: Seq<TensorInfo>, key: Seq<char>, inf: int, outf: int) -> Weights {
    let bias = present(infos, key + ".bias"@);
    if present(infos, key + ".trellis"@) {
        Weights::Exl3 {
            k: quotient(info_of(infos, key + ".trellis"@).depth as int, 16) as i64,
            mcg: present(infos, key + ".mcg"@),
            mul1: present(infos, key + ".mul1"@),
            bias,
        }
    } else {
        let w = info_of(infos, key + ".weight"@);
        Weights::Fp16 { pad: w.cols != inf || w.rows != outf, bias }
    }
}

/// Whether this is the outcome of looking for the layer under one key.
pub open spec fn planned_at(
    infos: Seq<TensorInfo>,
    key: Seq<char>,
    in_features: int,
    out_features: int,
    trim: bool,
    r: Result<LinearPlan, LinearError>,
) -> bool {
    if present(infos, key + ".trellis"@) && !present(infos, key + ".suh"@) {
        r matches Err(LinearError::PackedScales { key: k }) && k@ == key
    } else if present(infos, key + ".trellis"@) && !present(infos, key + ".svh"@) {
        r matches Err(LinearError::Missing { name }) && name@ == key + ".svh"@
    } else {
        &&& r matches Ok(p)
        &&& p.key@ == key
        &&& p.in_features == padded(in_features)
        &&& p.out_features == padded(out_features)
        &&& p.in_unpadded == in_features
        &&& p.out_unpadded == out_features
        &&& p.trim_padded_out == trim
        &&& p.weights == weights_of(infos, key, padded(in_features), padded(out_features))
    }
}

/// Whether this is the outcome of looking for a layer under its key, and under another where
/// there is one.
pub open spec fn planned(
    infos: Seq<TensorInfo>,
    key: Seq<char>,
    alt_key: Option<Seq<char>>,
    in_features: int,
    out_features: int,
    trim: bool,
    r: Result<LinearPlan, LinearError>,
) -> bool {
    if weighted(infos, key) {
        planned_at(infos, key, in_features, out_features, trim, r)
    } else if alt_key is Some && weighted(infos, alt_key->0) {
        planned_at(infos, alt_key->0, in_features, out_features, trim, r)
    } else {
        r matches Err(LinearError::NoTensors)
    }
}

fn is_present(infos: &Vec<TensorInfo>, key: &Vec<char>, more: &str) -> (r: bool)
    ensures
        r == present(infos@, key@ + more@),
{
    let name = name_with(key, more);
    find(infos, name.as_str()).is_some()
}

fn plan_at(infos: &Vec<TensorInfo>, key: &Vec<char>, in_features: i64, out_features: i64, trim: bool) -> (r: Result<
    LinearPlan,
    LinearError,
>)
    requires
        weighted(infos@, key@),
        in_features <= i64::MAX - 127,
        out_features <= i64::MAX - 127,
    ensures
        planned_at(infos@, key@, in_features as int, out_features as int, trim, r),
{
    let inf: i64 = pad128(in_features);
    let outf: i64 = pad128(out_features);
    let bias = is_present(infos, key, ".bias");
    let trellis = name_with(key, ".trellis");
    let weights = match find(infos, trellis.as_str()) {
        Some(i) => {
            if !is_present(infos, key, ".suh") {
                return Err(LinearError::PackedScales { key: string_of(key) });
            }
            if !is_present(infos, key, ".svh") {
                return Err(LinearError::Missing { name: name_with(key, ".svh") });
            }
            Weights::Exl3 {
                k: divide(infos[i].depth, 16),
                mcg: is_present(infos, key, ".mcg"),
                mul1: is_present(infos, key, ".mul1"),
                bias,
            }
        },
        None => {
            let name = name_with(key, ".weight");
            match find(infos, name.as_str()) {
                Some(i) => Weights::Fp16 { pad: infos[i].cols != inf || infos[i].rows != outf, bias },
                None => {
                    return Err(LinearError::NoTensors);
                },
            }
        },
    };
    Ok(
        LinearPlan {
            key: string_of(key),
            in_features: inf,
            out_features: outf,
            in_unpadded: in_features,
            out_unpadded: out_features,
            trim_padded_out: trim,
            weights,
        },
    )
}

impl LinearPlan {
    /// Where the weights of a layer are: under its key, or else under another.
    pub fn load(
        infos: &Vec<TensorInfo>,
        key: &str,
        alt_key: Option<&str>,
        in_features: i64,
        out_features: i64,
        trim_padded_out: bool,
    ) -> (r: Result<LinearPlan, LinearError>)
        requires
            in_features <= i64::MAX - 127,
            out_features <= i64::MAX - 127,
        ensures
            planned(
                infos@,
                key@,
                match alt_key {
                    Some(a) => Some(a@),
                    None => None,
                },
                in_features as int,
                out_features as int,
                trim_padded_out,
                r,
            ),
    {
        let k = chars_of(key);
        if is_present(infos, &k, ".trellis") || is_present(infos, &k, ".weight") {
            return plan_at(infos, &k, in_features, out_features, trim_padded_out);
        }
        match alt_key {
            Some(a) => {
                let k = chars_of(a);
                if is_present(infos, &k, ".trellis") || is_present(infos, &k, ".weight") {
                    return plan_at(infos, &k, in_features, out_features, trim_padded_out);
                }
            },
            None => {},
        }
        Err(LinearError::NoTensors)
    }

    /// What is known of the trellis for a kernel that runs many layers at once: nothing where
    /// the layer is plain or has a bias.
    pub fn exl3_parts(&self) -> (r: Option<(i64, bool, bool)>)
        ensures
            r == match self.weights {
                Weights::Exl3 { k, mcg, mul1, bias } => if bias {
                    None
                } else {
                    Some((k, mcg, mul1))
                },
                Weights::Fp16 { .. } => None,
            },
    {
        match self.weights {
            Weights::Exl3 { k, mcg, mul1, bias } => if bias {
                None
            } else {
                Some((k, mcg, mul1))
            },
            Weights::Fp16 { .. } => None,
        }
    }

    /// By how many zeros an input of this width is extended.
    pub fn input_pad(&self, last: i64) -> (r: i64)
        requires
            last >= 0,
        ensures
            r == if last < self.in_features {
                self.in_features - last
            } else {
                0
            },
    {
        if last < self.in_features {
            self.in_features - last
        } else {
            0
        }
    }

    /// Whether so many rows are worth unpacking the weights for a dense product.
    pub fn unpacks_for(&self, rows: i64) -> (r: bool)
        ensures
            r == (self.weights is Exl3 && rows > 144 && self.out_features <= 32768 && self.out_features
                == self.out_unpadded),
    {
        match self.weights {
            Weights::Exl3 { .. } => rows > 144 && self.out_features <= 32768 && self.out_features
                == self.out_unpadded,
            Weights::Fp16 { .. } => false,
        }
    }

    /// To which width the output is cut, where it is.
    pub fn output_cut(&self) -> (r: Option<i64>)
        ensures
            r == if self.trim_padded_out && self.out_features != self.out_unpadded {
                Some(self.out_unpadded)
            } else {
                None
            },
    {
        if self.trim_padded_out && self.out_features != self.out_unpadded {
            Some(self.out_unpadded)
        } else {
            None
        }
    }
}

/// The first block of a range of outputs.
pub open spec fn first_block(range: (i64, i64)) -> int {
    if range.0 < 0 {
        0
    } else {
        range.0 as int / 128
    }
}

/// The block behind a range of outputs, of a layer of so many outputs.
pub open spec fn end_block(range: (i64, i64), out_features: int) -> int {
    let e = if range.1 <= 0 {
        0
    } else {
        (range.1 + 127) / 128
    };
    if e <= out_features / 128 {
        e
    } else {
        out_features / 128
    }
}

/// Whether a block has outputs of one of these ranges.
pub open spec fn covered(ranges: Seq<(i64, i64)>, out_features: int, block: int) -> bool {
    exists|i: int|
        0 <= i < ranges.len() && first_block(#[trigger] ranges[i]) <= block < end_block(ranges[i], out_features)
}

/// Whether these are the blocks that have outputs of these ranges, each once, from the lowest
/// up.
pub open spec fn blocks_of(ranges: Seq<(i64, i64)>, out_features: int, blocks: Seq<i64>) -> bool {
    &&& rising(blocks)
    &&& forall|i: int| 0 <= i < blocks.len() ==> covered(ranges, out_features, #[trigger] blocks[i] as int)
    &&& forall|b: int| covered(ranges, out_features, b) ==> i64::MIN <= b <= i64::MAX && blocks.contains(b as i64)
}

/// The outputs of some blocks, of `n` each.
pub open spec fn spread(blocks: Seq<i64>, n: int) -> Seq<i64> {
    Seq::new((blocks.len() * n) as nat, |i: int| (blocks[i / n] * n + i % n) as i64)
}

/// What a pruned layer keeps.
pub struct Pruned {
    /// The kept outputs.
    pub ids: Vec<i64>,
    /// The kept tiles, of sixteen outputs each.
    pub tiles: Vec<i64>,
}

/// Why a layer cannot be pruned.
#[derive(Clone, Copy, Debug, PartialEq, Eq, Structural)]
pub enum PruneError {
    NotExl3,
    Biased,
    /// Nothing is kept.
    Empty,
}

/// The blocks that have outputs of these ranges.
fn find_blocks(ranges: &Vec<(i64, i64)>, out_features: i64) -> (r: Vec<i64>)
    requires
        out_features >= 0,
    ensures
        blocks_of(ranges@, out_features as int, r@),
        forall|i: int| 0 <= i < r.len() ==> 0 <= #[trigger] r@[i] < out_features / 128,
{
    let mut r: Vec<i64> = Vec::new();
    let most: i64 = out_features / 128;
    let mut i: usize = 0;
    while i < ranges.len()
        invariant
            out_features >= 0,
            most == out_features / 128,
            i <= ranges.len(),
            rising(r@),
            forall|b: i64| r@.contains(b) <==> covered(ranges@.take(i as int), out_features as int, b as int),
            forall|j: int| 0 <= j < r.len() ==> 0 <= #[trigger] r@[j] < most,
        decreases ranges.len() - i,
    {
        let (a, e) = ranges[i];
        let first: i64 = if a < 0 {
            0
        } else {
            a / 128
        };
        let end: i64 = if e <= 0 {
            0
        } else if e % 128 == 0 {
            e / 128
        } else {
            e / 128 + 1
        };
        let end: i64 = if end <= most {
            end
        } else {
            most
        };
        let ghost done = ranges@.take(i as int);
        assert(first == first_block(ranges@[i as int]));
        assert(end == end_block(ranges@[i as int], out_features as int));
        let mut b: i64 = first;
        while b < end
            invariant
                out_features >= 0,
                most == out_features / 128,
                0 <= first <= b,
                end <= most,
                b <= end || b == first,
                rising(r@),
                forall|x: i64| r@.contains(x) <==> covered(done, out_features as int, x as int) || first <= x < b,
                forall|j: int| 0 <= j < r.len() ==> 0 <= #[trigger] r@[j] < most,
            decreases end - b,
        {
            let ghost before = r@;
            insert(&mut r, b);
            proof {
                assert forall|j: int| 0 <= j < r.len() implies 0 <= #[trigger] r@[j] < most by {
                    assert(r@.contains(r@[j]));
                    if r@[j] != b {
                        assert(before.contains(r@[j]));
                    }
                }
            }
            b = b + 1;
        }
        i = i + 1;
        proof {
            let next = ranges@.take(i as int);
            assert forall|x: i64| r@.contains(x) <==> covered(next, out_features as int, x as int) by {
                if covered(done, out_features as int, x as int) {
                    let j = choose|j: int|
                        0 <= j < done.len() && first_block(#[trigger] done[j]) <= x < end_block(
                            done[j],
                            out_features as int,
                        );
                    assert(next[j] == done[j]);
                }
                if first <= x < end {
                    assert(next[i - 1] == ranges@[i - 1]);
                }
                if covered(next, out_features as int, x as int) {
                    let j = choose|j: int|
                        0 <= j < next.len() && first_block(#[trigger] next[j]) <= x < end_block(
                            next[j],
                            out_features as int,
                        );
                    if j < i - 1 {
                        assert(done[j] == next[j]);
                    }
                }
            }
        }
    }
    proof {
        assert(ranges@.take(i as int) =~= ranges@);
        assert forall|j: int| 0 <= j < r.len() implies covered(ranges@, out_features as int, #[trigger] r@[j] as int) by {
            assert(r@.contains(r@[j]));
        }
        assert forall|b: int| covered(ranges@, out_features as int, b) implies i64::MIN <= b <= i64::MAX
            && r@.contains(b as i64) by {
            let j = choose|j: int|
                0 <= j < ranges@.len() && first_block(#[trigger] ranges@[j]) <= b < end_block(
                    ranges@[j],
                    out_features as int,
                );
            assert(covered(ranges@, out_features as int, (b as i64) as int));
        }
    }
    r
}

/// The outputs of some blocks, of `n` each.
fn spread_out(blocks: &Vec<i64>, n: i64) -> (r: Vec<i64>)
    requires
        1 <= n <= 128,
        blocks.len() * n <= usize::MAX,
        forall|i: int| 0 <= i < blocks.len() ==> 0 <= #[trigger] blocks@[i] <= i64::MAX / 128 - 1,
    ensures
        r@ == spread(blocks@, n as int),
{
    let mut r: Vec<i64> = Vec::new();
    let mut i: usize = 0;
    assert(0 * n == 0);
    while i < blocks.len()
        invariant
            1 <= n <= 128,
            forall|j: int| 0 <= j < blocks.len() ==> 0 <= #[trigger] blocks@[j] <= i64::MAX / 128 - 1,
            i <= blocks.len(),
            r.len() == i * n,
            r@ == spread(blocks@.take(i as int), n as int),
        decreases blocks.len() - i,
    {
        let b: i64 = blocks[i];
        assert(0 <= b * n && b * n + n <= i64::MAX) by (nonlinear_arith)
            requires
                0 <= b <= i64::MAX / 128 - 1,
                1 <= n <= 128,
        ;
        let mut j: i64 = 0;
        let ghost done = r@;
        while j < n
            invariant
                1 <= n <= 128,
                0 <= b,
                0 <= b * n,
                b * n + n <= i64::MAX,
                0 <= j <= n,
                r@ == done + Seq::new(j as nat, |x: int| (b * n + x) as i64),
            decreases n - j,
        {
            r.push(b * n + j);
            j = j + 1;
            assert(r@ =~= done + Seq::new(j as nat, |x: int| (b * n + x) as i64));
        }
        i = i + 1;
        proof {
            let k = i - 1;
            assert(i * n == k * n + n) by (nonlinear_arith)
                requires
                    i == k + 1,
            ;
            let want = spread(blocks@.take(i as int), n as int);
            assert forall|x: int| 0 <= x < want.len() implies r@[x] == want[x] by {
                if x < k * n {
                    assert(0 <= x / n as int && x / n as int <= k - 1) by (nonlinear_arith)
                        requires
                            0 <= x < k * n,
                            n >= 1,
                    ;
                    assert(done[x] == spread(blocks@.take(k), n as int)[x]);
                } else {
                    vstd::arithmetic::div_mod::lemma_fundamental_div_mod_converse(x, n as int, k, x - k * n);
                }
            }
            assert(r@ =~= want);
        }
    }
    assert(blocks@.take(i as int) =~= blocks@);
    r
}

impl LinearPlan {
    /// What is kept of the layer when it is cut to these ranges of outputs, in whole blocks.
    pub fn prune_out(&self, ranges: &Vec<(i64, i64)>) -> (r: Result<Pruned, PruneError>)
        requires
            self.weights is Exl3 ==> 0 <= self.out_features <= usize::MAX,
        ensures
            match self.weights {
                Weights::Fp16 { .. } => r == Err::<Pruned, PruneError>(PruneError::NotExl3),
                Weights::Exl3 { bias, .. } => if bias {
                    r == Err::<Pruned, PruneError>(PruneError::Biased)
                } else {
                    match r {
                        Ok(p) => pruned(ranges@, self.out_features as int, p),
                        Err(e) => e == PruneError::Empty && forall|b: int|
                            !covered(ranges@, self.out_features as int, b),
                    }
                },
            },
    {
        match self.weights {
            Weights::Fp16 { .. } => {
                return Err(PruneError::NotExl3);
            },
            Weights::Exl3 { bias, .. } => {
                if bias {
                    return Err(PruneError::Biased);
                }
            },
        }
        let blocks = find_blocks(ranges, self.out_features);
        if blocks.len() == 0 {
            return Err(PruneError::Empty);
        }
        proof {
            lemma_count(blocks@, self.out_features as int / 128);
        }
        let ids = spread_out(&blocks, 128);
        let tiles = spread_out(&blocks, 8);
        assert(blocks_of(ranges@, self.out_features as int, blocks@));
        Ok(Pruned { ids, tiles })
    }
}

/// There are no more different numbers below `n` than `n`.
proof fn lemma_count(v: Seq<i64>, n: int)
    requires
        rising(v),
        n >= 0,
        forall|i: int| 0 <= i < v.len() ==> 0 <= #[trigger] v[i] < n,
    ensures
        v.len() <= n,
    decreases v.len(),
{
    if v.len() > 0 {
        lemma_above(v, v.len() - 1);
    }
}

proof fn lemma_above(v: Seq<i64>, i: int)
    requires
        rising(v),
        0 <= i < v.len(),
        v[0] >= 0,
    ensures
        v[i] >= i,
    decreases i,
{
    if i > 0 {
        lemma_above(v, i - 1);
        assert(v[i - 1] < v[i]);
    }
}

/// Whether this is what is kept of a layer of so many outputs.
pub open spec fn pruned(ranges: Seq<(i64, i64)>, out_features: int, p: Pruned) -> bool {
    exists|blocks: Seq<i64>| #[trigger]
        blocks_of(ranges, out_features, blocks) && blocks.len() > 0 && p.ids@ == spread(blocks, 128) && p.tiles@
            == spread(blocks, 8)
}

/// A pruned layer keeps every output of its ranges, and each once: the place of an output among
/// the kept ones tells which output it is.
pub proof fn pruning_keeps_ranges(ranges: Seq<(i64, i64)>, out_features: int, p: Pruned)
    requires
        pruned(ranges, out_features, p),
        0 <= out_features <= i64::MAX,
    ensures
        rising(p.ids@),
        forall|i: int, id: i64|
            0 <= i < ranges.len() && (#[trigger] ranges[i]).0 <= id < ranges[i].1 && 0 <= id < out_features / 128
                * 128 ==> #[trigger] p.ids@.contains(id),
        forall|k: int| 0 <= k < p.ids@.len() ==> 0 <= #[trigger] p.ids@[k] < out_features,
{
    let blocks = choose|blocks: Seq<i64>| #[trigger]
        blocks_of(ranges, out_features, blocks) && blocks.len() > 0 && p.ids@ == spread(blocks, 128) && p.tiles@
            == spread(blocks, 8);
    let ids = p.ids@;
    assert forall|i: int| 0 <= i < blocks.len() implies 0 <= #[trigger] blocks[i] < out_features / 128 by {
        assert(covered(ranges, out_features, blocks[i] as int));
    }
    assert forall|a: int, b: int| 0 <= a < b < ids.len() implies #[trigger] ids[a] < #[trigger] ids[b] by {
        assert(0 <= a / 128 <= b / 128 < blocks.len());
        if a / 128 < b / 128 {
            assert(blocks[a / 128] < blocks[b / 128]);
        }
        assert(0 <= blocks[a / 128] < out_features / 128);
        assert(0 <= blocks[b / 128] < out_features / 128);
    }
    assert forall|i: int, id: i64|
        0 <= i < ranges.len() && (#[trigger] ranges[i]).0 <= id < ranges[i].1 && 0 <= id < out_features / 128
            * 128 implies #[trigger] ids.contains(id) by {
        let b = id as int / 128;
        assert(first_block(ranges[i]) <= b < end_block(ranges[i], out_features));
        assert(covered(ranges, out_features, b));
        let k = choose|k: int| 0 <= k < blocks.len() && blocks[k] == b as i64;
        let at = k * 128 + id as int % 128;
        assert(at / 128 == k && at % 128 == id as int % 128);
        assert(ids[at] == id);
    }
    assert forall|k: int| 0 <= k < ids.len() implies 0 <= #[trigger] ids[k] < out_features by {
        assert(0 <= blocks[k / 128] < out_features / 128);
    }
}

/// A layer stands under its own key where there are weights, and under the other one only where
/// there are none; it cannot be loaded where neither has any. Its widths are the least whole
/// blocks that hold it. Trellis-coded weights go before plain ones, and come with both scales.
pub proof fn layers_stand_where_their_weights_are(
    infos: Seq<TensorInfo>,
    key: Seq<char>,
    alt_key: Option<Seq<char>>,
    in_features: int,
    out_features: int,
    trim: bool,
    r: Result<LinearPlan, LinearError>,
)
    requires
        planned(infos, key, alt_key, in_features, out_features, trim, r),
        in_features >= 0,
        out_features >= 0,
    ensures
        r is Err && r->Err_0 is NoTensors <==> !present(infos, key + ".trellis"@) && !present(infos, key + ".weight"@) && (
        alt_key is None || !present(infos, alt_key->0 + ".trellis"@) && !present(infos, alt_key->0 + ".weight"@)),
        r matches Ok(p) ==> {
            let coded = present(infos, p.key@ + ".trellis"@);
            &&& present(infos, key + ".trellis"@) || present(infos, key + ".weight"@) ==> p.key@ == key
            &&& p.key@ != key ==> alt_key == Some(p.key@)
            &&& coded || present(infos, p.key@ + ".weight"@)
            &&& p.in_features % 128 == 0 && in_features <= p.in_features < in_features + 128
            &&& p.out_features % 128 == 0 && out_features <= p.out_features < out_features + 128
            &&& p.in_unpadded == in_features && p.out_unpadded == out_features && p.trim_padded_out == trim
            &&& p.weights is Exl3 <==> coded
            &&& coded ==> present(infos, p.key@ + ".suh"@) && present(infos, p.key@ + ".svh"@)
        },
{
}

/// A pruned layer keeps tiles of sixteen outputs: the tile of a kept output stands where the
/// output does among the kept ones, and every kept output shares a block with one of a range.
pub proof fn pruning_keeps_whole_blocks(ranges: Seq<(i64, i64)>, out_features: int, p: Pruned, k: int)
    requires
        pruned(ranges, out_features, p),
        0 <= out_features <= i64::MAX,
        0 <= k < p.ids@.len(),
    ensures
        p.tiles@.len() * 16 == p.ids@.len(),
        p.tiles@[k / 16] == p.ids@[k] as int / 16,
        exists|i: int|
            0 <= i < ranges.len() && (#[trigger] ranges[i]).0 as int <= (p.ids@[k] as int / 128) * 128 + 127 && (p.ids@[k] as int
                / 128) * 128 < ranges[i].1,
{
    let blocks = choose|blocks: Seq<i64>| #[trigger]
        blocks_of(ranges, out_features, blocks) && blocks.len() > 0 && p.ids@ == spread(blocks, 128) && p.tiles@
            == spread(blocks, 8);
    let b = blocks[k / 128];
    assert(0 <= k / 128 < blocks.len());
    assert(covered(ranges, out_features, b as int));
    let i = choose|i: int|
        0 <= i < ranges.len() && first_block(#[trigger] ranges[i]) <= b < end_block(ranges[i], out_features);
    assert(0 <= b < out_features / 128);
    assert(p.ids@[k] == b * 128 + k % 128);
    assert((k / 16) / 8 == k / 128);
    assert(p.tiles@[k / 16] == b * 8 + (k / 16) % 8);
    assert((k / 16) % 8 == (k % 128) / 16);
    assert(ranges[i].0 as int <= b * 128 + 127 && b * 128 < ranges[i].1);
}

} // verus!
