//! How large the caches of a model are: which planes each layer has, and of what shape.
use vstd::prelude::*;
use crate::arith::quotient;
use crate::config::{first_end, fits, Config, GdnParams, LayerKind};
use crate::paged::{page_count, pages_for};

verus! {

/// What one layer of a model has in its cache.
#[derive(Clone, Copy, Debug, PartialEq, Eq, Structural)]
pub enum LayerPlanes {
    /// Keys and values in pages, for each head of the kernels.
    Kv { num_pages: i64, kv_heads: i64, head_dim: i64 },
    /// Packed keys and values in pages, and a scale for each group of thirty-two.
    KvQuant { num_pages: i64, k_words: i64, v_words: i64, groups: i64 },
    /// A convolution window and a recurrent state for each slot, with so many more for history.
    Gdn { slots: i64, fdim: i64, conv_len: i64, states: i64, num_v_heads: i64, k_head_dim: i64, v_head_dim: i64 },
    /// Keys and values in one piece, and the indexer's raw keys.
    Whole { max_len: i64, kv_heads: i64, head_dim: i64, indexer_dim: i64 },
}

/// Whether these are the heads that the kernels see, and how often each is repeated.
pub open spec fn effective(c: Config, r: (int, int)) -> bool {
    exists|k: int|
        #[trigger] first_end(c.head_dim as int, c.num_q_heads as int, c.num_kv_heads as int, k) && r == if fits(
            c.head_dim as int,
            c.num_q_heads as int,
            c.num_kv_heads * k,
        ) {
            (c.num_kv_heads * k, k)
        } else {
            (c.num_q_heads as int, quotient(c.num_q_heads as int, c.num_kv_heads as int))
        }
}

/// Whether the heads of a model can be counted.
pub open spec fn counted(c: Config) -> bool {
    &&& c.num_kv_heads >= 1
    &&& c.num_q_heads + c.num_kv_heads <= i64::MAX
    &&& 2 * c.num_kv_heads <= i64::MAX
}

/// How many tokens fit in so many pages.
pub fn capacity(num_pages: i64) -> (r: i64)
    requires
        i64::MIN <= num_pages * 256 <= i64::MAX,
    ensures
        r == num_pages * 256,
{
    num_pages * 256
}

/// How many pages a cache for so many tokens has, and how many tokens fit in them.
pub fn paged_len(max_len: i64) -> (r: (i64, i64))
    requires
        0 <= max_len <= i64::MAX - 255,
    ensures
        r.0 == page_count(max_len as int),
        r.1 == 256 * r.0,
        max_len <= r.1 < max_len + 256,
{
    let n: i64 = pages_for(max_len);
    (n, n * 256)
}

/// The planes of a homogeneous stack, in pages.
pub fn paged_planes(c: &Config, num_pages: i64) -> (r: Vec<LayerPlanes>)
    requires
        counted(*c),
        0 <= c.num_hidden_layers <= usize::MAX,
    ensures
        exists|kv: int, rep: int| #[trigger]
            effective(*c, (kv, rep)) && r@ == Seq::new(
                c.num_hidden_layers as nat,
                |i: int| LayerPlanes::Kv { num_pages, kv_heads: kv as i64, head_dim: c.head_dim },
            ),
{
    let (kv_heads, rep) = c.kv_heads_eff();
    let n: usize = c.num_hidden_layers as usize;
    let ghost one = LayerPlanes::Kv { num_pages, kv_heads, head_dim: c.head_dim };
    let mut r: Vec<LayerPlanes> = Vec::new();
    while r.len() < n
        invariant
            r.len() <= n,
            one == (LayerPlanes::Kv { num_pages, kv_heads, head_dim: c.head_dim }),
            r@ == Seq::new(r@.len(), |i: int| one),
        decreases n - r.len(),
    {
        r.push(LayerPlanes::Kv { num_pages, kv_heads, head_dim: c.head_dim });
        assert(r@ =~= Seq::new(r@.len(), |i: int| one));
    }
    assert(effective(*c, (kv_heads as int, rep as int)));
    assert(r@ =~= Seq::new(
        c.num_hidden_layers as nat,
        |i: int| LayerPlanes::Kv { num_pages, kv_heads: (kv_heads as int) as i64, head_dim: c.head_dim },
    ));
    r
}

/// Whether keys and values of so many heads can be packed to these widths: between two and eight
/// bits, in whole groups.
pub open spec fn packable(kv: int, head_dim: int, k_bits: int, v_bits: int) -> bool {
    &&& 2 <= k_bits <= 8
    &&& 2 <= v_bits <= 8
    &&& (kv * head_dim) % 32 == 0
}

/// How many groups of thirty-two values a token has.
pub open spec fn groups_of(kv: int, head_dim: int) -> int {
    quotient(kv * head_dim, 32)
}

/// The packed planes of one layer.
pub open spec fn packed_planes(num_pages: i64, kv: int, head_dim: int, k_bits: int, v_bits: int) -> LayerPlanes {
    let groups = groups_of(kv, head_dim);
    LayerPlanes::KvQuant {
        num_pages,
        k_words: (groups * k_bits) as i64,
        v_words: (groups * v_bits) as i64,
        groups: groups as i64,
    }
}

/// The packed planes of one layer, where its keys and values can be packed.
fn pack_layer(num_pages: i64, kv: i64, head_dim: i64, k_bits: i64, v_bits: i64) -> (r: Option<LayerPlanes>)
    requires
        i64::MIN <= kv * head_dim <= i64::MAX,
    ensures
        match r {
            Some(p) => packable(kv as int, head_dim as int, k_bits as int, v_bits as int) && p == packed_planes(
                num_pages,
                kv as int,
                head_dim as int,
                k_bits as int,
                v_bits as int,
            ),
            None => !packable(kv as int, head_dim as int, k_bits as int, v_bits as int),
        },
{
    if k_bits < 2 || k_bits > 8 || v_bits < 2 || v_bits > 8 {
        return None;
    }
    let token: i64 = kv * head_dim;
    let groups: i64 = crate::arith::divide(token, 32);
    if groups * 32 != token {
        return None;
    }
    assert(i64::MIN <= groups * k_bits && groups * k_bits <= i64::MAX) by (nonlinear_arith)
        requires
            i64::MIN <= groups * 32 <= i64::MAX,
            2 <= k_bits <= 8,
    ;
    assert(i64::MIN <= groups * v_bits && groups * v_bits <= i64::MAX) by (nonlinear_arith)
        requires
            i64::MIN <= groups * 32 <= i64::MAX,
            2 <= v_bits <= 8,
    ;
    Some(LayerPlanes::KvQuant { num_pages, k_words: groups * k_bits, v_words: groups * v_bits, groups })
}

/// The planes of a homogeneous stack, packed, where its keys and values can be.
pub fn quant_planes(c: &Config, num_pages: i64, k_bits: i64, v_bits: i64) -> (r: Option<Vec<LayerPlanes>>)
    requires
        counted(*c),
        0 <= c.num_hidden_layers <= usize::MAX,
        forall|kv: int, rep: int| #[trigger] effective(*c, (kv, rep)) ==> i64::MIN <= kv * c.head_dim <= i64::MAX,
    ensures
        exists|kv: int, rep: int| #[trigger]
            effective(*c, (kv, rep)) && match r {
                Some(v) => packable(kv, c.head_dim as int, k_bits as int, v_bits as int) && v@ == Seq::new(
                    c.num_hidden_layers as nat,
                    |i: int| packed_planes(num_pages, kv, c.head_dim as int, k_bits as int, v_bits as int),
                ),
                None => !packable(kv, c.head_dim as int, k_bits as int, v_bits as int),
            },
{
    let (kv, rep) = c.kv_heads_eff();
    assert(effective(*c, (kv as int, rep as int)));
    let one = match pack_layer(num_pages, kv, c.head_dim, k_bits, v_bits) {
        Some(p) => p,
        None => {
            return None;
        },
    };
    let n: usize = c.num_hidden_layers as usize;
    let mut r: Vec<LayerPlanes> = Vec::new();
    while r.len() < n
        invariant
            r.len() <= n,
            r@ == Seq::new(r@.len(), |i: int| one),
        decreases n - r.len(),
    {
        r.push(one);
        assert(r@ =~= Seq::new(r@.len(), |i: int| one));
    }
    assert(r@ =~= Seq::new(
        c.num_hidden_layers as nat,
        |i: int| packed_planes(num_pages, kv as int, c.head_dim as int, k_bits as int, v_bits as int),
    ));
    Some(r)
}

/// The recurrent planes of one layer.
pub open spec fn recurrent_planes(g: GdnParams, slots: i64, history: int) -> LayerPlanes {
    LayerPlanes::Gdn {
        slots,
        fdim: (2 * g.num_k_heads * g.k_head_dim + g.num_v_heads * g.v_head_dim) as i64,
        conv_len: (g.conv_kernel_size + history) as i64,
        states: (history + 1) as i64,
        num_v_heads: g.num_v_heads,
        k_head_dim: g.k_head_dim,
        v_head_dim: g.v_head_dim,
    }
}

fn recurrent_layer(g: &GdnParams, slots: i64, history: i64) -> (r: LayerPlanes)
    requires
        g.countable(),
        i64::MIN <= g.conv_kernel_size + history <= i64::MAX,
        history < i64::MAX,
    ensures
        r == recurrent_planes(*g, slots, history as int),
{
    LayerPlanes::Gdn {
        slots,
        fdim: g.fdim_qkv(),
        conv_len: g.conv_kernel_size + history,
        states: history + 1,
        num_v_heads: g.num_v_heads,
        k_head_dim: g.k_head_dim,
        v_head_dim: g.v_head_dim,
    }
}

/// The planes of a layer of a hybrid stack: pages for full attention, packed where that is asked
/// for, and recurrent states for the others.
pub open spec fn hybrid_layer(
    c: Config,
    kind: LayerKind,
    kv: int,
    num_pages: i64,
    slots: i64,
    history: int,
    bits: (i64, i64),
) -> LayerPlanes {
    match kind {
        LayerKind::FullAttention => if bits.0 > 0 || bits.1 > 0 {
            packed_planes(num_pages, kv, c.head_dim as int, bits.0 as int, bits.1 as int)
        } else {
            LayerPlanes::Kv { num_pages, kv_heads: kv as i64, head_dim: c.head_dim }
        },
        LayerKind::LinearAttention => recurrent_planes(c.gdn->0, slots, history),
    }
}

/// The planes of a hybrid stack, where its keys and values can be packed as asked for.
pub fn hybrid_planes(c: &Config, num_pages: i64, max_slots: i64, max_history: i64, kv_bits: (i64, i64)) -> (r: Option<
    Vec<LayerPlanes>,
>)
    requires
        counted(*c),
        c.gdn is Some,
        c.gdn->0.countable(),
        i64::MIN <= c.gdn->0.conv_kernel_size + max_history <= i64::MAX,
        max_history < i64::MAX,
        forall|kv: int, rep: int| #[trigger] effective(*c, (kv, rep)) ==> i64::MIN <= kv * c.head_dim <= i64::MAX,
    ensures
        exists|kv: int, rep: int| #[trigger]
            effective(*c, (kv, rep)) && match r {
                Some(v) => {
                    &&& (kv_bits.0 > 0 || kv_bits.1 > 0) ==> packable(
                        kv,
                        c.head_dim as int,
                        kv_bits.0 as int,
                        kv_bits.1 as int,
                    )
                    &&& v@ == Seq::new(
                        c.layer_types@.len(),
                        |i: int|
                            hybrid_layer(*c, c.layer_types@[i], kv, num_pages, max_slots, max_history as int, kv_bits),
                    )
                },
                None => (kv_bits.0 > 0 || kv_bits.1 > 0) && !packable(
                    kv,
                    c.head_dim as int,
                    kv_bits.0 as int,
                    kv_bits.1 as int,
                ),
            },
{
    let (kv, rep) = c.kv_heads_eff();
    assert(effective(*c, (kv as int, rep as int)));
    let (k_bits, v_bits) = kv_bits;
    let full = if k_bits > 0 || v_bits > 0 {
        match pack_layer(num_pages, kv, c.head_dim, k_bits, v_bits) {
            Some(p) => p,
            None => {
                return None;
            },
        }
    } else {
        LayerPlanes::Kv { num_pages, kv_heads: kv, head_dim: c.head_dim }
    };
    let linear = match &c.gdn {
        Some(g) => recurrent_layer(g, max_slots, max_history),
        None => full,
    };
    let mut r: Vec<LayerPlanes> = Vec::new();
    let mut i: usize = 0;
    while i < c.layer_types.len()
        invariant
            i <= c.layer_types.len(),
            forall|k: LayerKind|
                #[trigger] hybrid_layer(*c, k, kv as int, num_pages, max_slots, max_history as int, kv_bits) == match k {
                    LayerKind::FullAttention => full,
                    LayerKind::LinearAttention => linear,
                },
            r@ == Seq::new(
                i as nat,
                |j: int|
                    hybrid_layer(
                        *c,
                        c.layer_types@[j],
                        kv as int,
                        num_pages,
                        max_slots,
                        max_history as int,
                        kv_bits,
                    ),
            ),
        decreases c.layer_types.len() - i,
    {
        r.push(
            match c.layer_types[i] {
                LayerKind::FullAttention => full,
                LayerKind::LinearAttention => linear,
            },
        );
        i = i + 1;
        assert(r@ =~= Seq::new(
            i as nat,
            |j: int|
                hybrid_layer(*c, c.layer_types@[j], kv as int, num_pages, max_slots, max_history as int, kv_bits),
        ));
    }
    Some(r)
}

/// The planes of a stack with sparse attention: in one piece, with the model's own heads.
pub fn whole_planes(c: &Config, max_len: i64) -> (r: Vec<LayerPlanes>)
    requires
        c.qwen4 is Some,
        c.gdn is Some,
        c.gdn->0.countable(),
        c.gdn->0.conv_kernel_size + 0 <= i64::MAX,
    ensures
        r@ == Seq::new(
            c.layer_types@.len(),
            |i: int|
                match c.layer_types@[i] {
                    LayerKind::FullAttention => LayerPlanes::Whole {
                        max_len,
                        kv_heads: c.num_kv_heads,
                        head_dim: c.head_dim,
                        indexer_dim: c.qwen4->0.indexer_head_dim,
                    },
                    LayerKind::LinearAttention => recurrent_planes(c.gdn->0, 1, 0),
                },
        ),
{
    let indexer_dim: i64 = match &c.qwen4 {
        Some(q) => q.indexer_head_dim,
        None => 0,
    };
    let full = LayerPlanes::Whole { max_len, kv_heads: c.num_kv_heads, head_dim: c.head_dim, indexer_dim };
    let linear = match &c.gdn {
        Some(g) => recurrent_layer(g, 1, 0),
        None => full,
    };
    let mut r: Vec<LayerPlanes> = Vec::new();
    let mut i: usize = 0;
    while i < c.layer_types.len()
        invariant
            i <= c.layer_types.len(),
            c.gdn is Some,
            c.qwen4 is Some,
            full == (LayerPlanes::Whole {
                max_len,
                kv_heads: c.num_kv_heads,
                head_dim: c.head_dim,
                indexer_dim: c.qwen4->0.indexer_head_dim,
            }),
            linear == recurrent_planes(c.gdn->0, 1, 0),
            r@ == Seq::new(
                i as nat,
                |j: int|
                    match c.layer_types@[j] {
                        LayerKind::FullAttention => full,
                        LayerKind::LinearAttention => linear,
                    },
            ),
        decreases c.layer_types.len() - i,
    {
        r.push(
            match c.layer_types[i] {
                LayerKind::FullAttention => full,
                LayerKind::LinearAttention => linear,
            },
        );
        i = i + 1;
        assert(r@ =~= Seq::new(
            i as nat,
            |j: int|
                match c.layer_types@[j] {
                    LayerKind::FullAttention => full,
                    LayerKind::LinearAttention => linear,
                },
        ));
    }
    assert(r@ =~= Seq::new(
        c.layer_types@.len(),
        |i: int|
            match c.layer_types@[i] {
                LayerKind::FullAttention => LayerPlanes::Whole {
                    max_len,
                    kv_heads: c.num_kv_heads,
                    head_dim: c.head_dim,
                    indexer_dim: c.qwen4->0.indexer_head_dim,
                },
                LayerKind::LinearAttention => recurrent_planes(c.gdn->0, 1, 0),
            },
    ));
    r
}

/// The planes of the drafting head's shared cache: packed to eight bits, or plain where that is
/// asked for; none where the heads do not fill whole groups.
pub fn head_planes(c: &Config, num_pages: i64, plain: bool) -> (r: Option<LayerPlanes>)
    requires
        counted(*c),
        forall|kv: int, rep: int| #[trigger] effective(*c, (kv, rep)) ==> i64::MIN <= kv * c.head_dim <= i64::MAX,
    ensures
        exists|kv: int, rep: int| #[trigger]
            effective(*c, (kv, rep)) && match r {
                Some(p) => packable(kv, c.head_dim as int, 8, 8) && p == if plain {
                    LayerPlanes::Kv { num_pages, kv_heads: kv as i64, head_dim: c.head_dim }
                } else {
                    packed_planes(num_pages, kv, c.head_dim as int, 8, 8)
                },
                None => !packable(kv, c.head_dim as int, 8, 8),
            },
{
    let (kv_heads, rep) = c.kv_heads_eff();
    assert(effective(*c, (kv_heads as int, rep as int)));
    match pack_layer(num_pages, kv_heads, c.head_dim, 8, 8) {
        Some(p) => {
            if plain {
                Some(LayerPlanes::Kv { num_pages, kv_heads, head_dim: c.head_dim })
            } else {
                Some(p)
            }
        },
        None => None,
    }
}

/// The words of packed keys and values hold every bit of a token, and no more.
pub proof fn packed_planes_hold_every_bit(num_pages: i64, kv: int, head_dim: int, k_bits: int, v_bits: int)
    requires
        packable(kv, head_dim, k_bits, v_bits),
        0 <= kv * head_dim <= i64::MAX,
    ensures
        packed_planes(num_pages, kv, head_dim, k_bits, v_bits) matches LayerPlanes::KvQuant {
            num_pages: n,
            k_words,
            v_words,
            groups,
        } && n == num_pages && groups * 32 == kv * head_dim && k_words * 32 == kv * head_dim * k_bits && v_words * 32 == kv
            * head_dim * v_bits,
{
    let t = kv * head_dim;
    let g = groups_of(kv, head_dim);
    assert(g * 32 == t);
    assert(0 <= g * k_bits <= t && g * k_bits * 32 == t * k_bits) by (nonlinear_arith)
        requires
            g * 32 == t,
            g >= 0,
            2 <= k_bits <= 8,
    ;
    assert(0 <= g * v_bits <= t && g * v_bits * 32 == t * v_bits) by (nonlinear_arith)
        requires
            g * 32 == t,
            g >= 0,
            2 <= v_bits <= 8,
    ;
}

} // verus!
