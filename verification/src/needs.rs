//! Which tensors the parts of a model are made of, in the order in which they are read.
use vstd::prelude::*;
use crate::arith::{divide, quotient};
use crate::config::{Config, MoeParams};
use crate::dflash2::DFlash2Params;
use crate::linear::{planned, LinearError, LinearPlan};
use crate::model::{Part, PartKind, PartView};
use crate::moe::{has_down, shared_expert, SharedExpert};
use crate::tensors::{find, name_with, present, TensorInfo};
use crate::text::{chars_of, copy_chars, decimal, push_decimal, push_text, string_of};

verus! {

/// Something that a part is made of.
pub enum Need {
    Linear { key: String, in_features: i64, out_features: i64, trim: bool },
    Tensor { name: String },
    /// The shared expert of this layer, which is not there.
    SharedExpert { key: String },
}

/// A need, its key as text.
#[verifier::ext_equal]
pub enum NeedView {
    Linear { key: Seq<char>, in_features: int, out_features: int, trim: bool },
    Tensor { name: Seq<char> },
    SharedExpert { key: Seq<char> },
}

impl Need {
    /// The need, its key as text.
    pub open spec fn view(&self) -> NeedView {
        match *self {
            Need::Linear { key, in_features, out_features, trim } => NeedView::Linear {
                key: key@,
                in_features: in_features as int,
                out_features: out_features as int,
                trim,
            },
            Need::Tensor { name } => NeedView::Tensor { name: name@ },
            Need::SharedExpert { key } => NeedView::SharedExpert { key: key@ },
        }
    }
}

/// The needs, their keys as texts.
pub open spec fn needs_of(v: Seq<Need>) -> Seq<NeedView> {
    Seq::new(v.len(), |i: int| v[i].view())
}

pub open spec fn linear(key: Seq<char>, in_features: int, out_features: int, trim: bool) -> NeedView {
    NeedView::Linear { key, in_features, out_features, trim }
}

pub open spec fn tensor(name: Seq<char>) -> NeedView {
    NeedView::Tensor { name }
}

/// Whether the widths of the attention can be counted.
pub open spec fn sized(c: Config) -> bool {
    &&& i64::MIN <= c.num_q_heads * c.head_dim <= i64::MAX
    &&& i64::MIN <= c.num_q_heads * c.head_dim * 2 <= i64::MAX
    &&& i64::MIN <= c.num_kv_heads * c.head_dim <= i64::MAX
}

/// The four projections of an attention, and the norms of its heads.
pub open spec fn attention_needs(c: Config, key: Seq<char>) -> Seq<NeedView> {
    let q = c.num_q_heads * c.head_dim;
    let kv = c.num_kv_heads * c.head_dim;
    let hidden = c.hidden_size as int;
    seq![
        linear(
            key + ".q_proj"@,
            hidden,
            if c.attn_output_gate {
                q * 2
            } else {
                q
            },
            true,
        ),
        linear(key + ".k_proj"@, hidden, kv, true),
        linear(key + ".v_proj"@, hidden, kv, true),
        linear(key + ".o_proj"@, q, hidden, true),
    ] + if c.qk_norm {
        seq![tensor(key + ".q_norm.weight"@), tensor(key + ".k_norm.weight"@)]
    } else {
        seq![]
    }
}

/// The three projections of a gated feed-forward part.
pub open spec fn mlp_needs(key: Seq<char>, hidden: int, width: int) -> Seq<NeedView> {
    seq![
        linear(key + ".gate_proj"@, hidden, width, false),
        linear(key + ".up_proj"@, hidden, width, false),
        linear(key + ".down_proj"@, width, hidden, true),
    ]
}

pub open spec fn expert_key(key: Seq<char>, e: nat) -> Seq<char> {
    key + ".experts."@ + decimal(e)
}

/// The projections of the first `n` experts.
pub open spec fn experts_needs(key: Seq<char>, hidden: int, width: int, n: nat) -> Seq<NeedView>
    decreases n,
{
    if n == 0 {
        seq![]
    } else {
        experts_needs(key, hidden, width, (n - 1) as nat) + mlp_needs(
            expert_key(key, (n - 1) as nat),
            hidden,
            width,
        )
    }
}

/// The shared expert, under either of its keys.
pub open spec fn shared_needs(infos: Seq<TensorInfo>, key: Seq<char>, hidden: int, width: i64) -> Seq<NeedView> {
    if width == 0 {
        seq![]
    } else if has_down(infos, key + ".shared_experts"@) {
        mlp_needs(key + ".shared_experts"@, hidden, width as int)
    } else if has_down(infos, key + ".shared_expert"@) {
        mlp_needs(key + ".shared_expert"@, hidden, width as int)
    } else {
        seq![NeedView::SharedExpert { key }]
    }
}

/// A feed-forward part with experts: its router, the experts, and the shared one with its gate.
pub open spec fn moe_needs(infos: Seq<TensorInfo>, p: MoeParams, hidden: int, key: Seq<char>) -> Seq<NeedView> {
    seq![tensor(key + ".gate.weight"@)] + experts_needs(
        key,
        hidden,
        p.moe_intermediate_size as int,
        if p.num_experts >= 0 {
            p.num_experts as nat
        } else {
            0
        },
    ) + shared_needs(infos, key, hidden, p.shared_expert_intermediate_size) + if p.shared_gate {
        seq![linear(key + ".shared_expert_gate"@, hidden, 1, false)]
    } else {
        seq![]
    }
}

/// A block of a homogeneous stack.
pub open spec fn block_needs(infos: Seq<TensorInfo>, c: Config, key: Seq<char>, sparse: bool) -> Seq<NeedView> {
    let post = c.arch_kind == crate::config::ArchKind::Glm4;
    seq![tensor(key + ".input_layernorm.weight"@)] + attention_needs(c, key + ".self_attn"@) + (if post {
        seq![tensor(key + ".post_self_attn_layernorm.weight"@)]
    } else {
        seq![]
    }) + seq![tensor(key + ".post_attention_layernorm.weight"@)] + (if sparse && c.moe is Some {
        moe_needs(infos, c.moe->0, c.hidden_size as int, key + ".mlp"@)
    } else {
        mlp_needs(key + ".mlp"@, c.hidden_size as int, c.intermediate_size as int)
    }) + (if post {
        seq![tensor(key + ".post_mlp_layernorm.weight"@)]
    } else {
        seq![]
    })
}

/// A layer of a hybrid stack; what its linear attention is made of is not listed.
pub open spec fn hybrid_needs(c: Config, key: Seq<char>, full: bool) -> Seq<NeedView> {
    (if full {
        attention_needs(c, key + ".self_attn"@)
    } else {
        seq![]
    }) + seq![tensor(key + ".input_layernorm.weight"@), tensor(key + ".post_attention_layernorm.weight"@)] + mlp_needs(
        key + ".mlp"@,
        c.hidden_size as int,
        c.intermediate_size as int,
    )
}

/// A hyper-connection; one that writes back has a gate.
pub open spec fn connection_needs(key: Seq<char>, combine: bool) -> Seq<NeedView> {
    seq![
        tensor(key + ".hc_norm.weight"@),
        tensor(key + ".input_mix_weight_down.weight"@),
        tensor(key + ".input_mix_weight_up.weight"@),
    ] + if combine {
        seq![tensor(key + ".block_inject_weight.weight"@)]
    } else {
        seq![]
    }
}

/// A layer with hyper-connections; what its indexer or its linear attention is made of is not
/// listed.
pub open spec fn hyper_needs(infos: Seq<TensorInfo>, c: Config, key: Seq<char>, full: bool) -> Seq<NeedView> {
    (if full {
        attention_needs(c, key + ".self_attn"@)
    } else {
        seq![]
    }) + connection_needs(key + ".attn_hyper_connection"@, true) + connection_needs(
        key + ".mlp_hyper_connection"@,
        true,
    ) + if c.moe is Some {
        moe_needs(infos, c.moe->0, c.hidden_size as int, key + ".mlp"@)
    } else {
        seq![]
    }
}

/// An injection of n-gram features.
pub open spec fn injection_needs(c: Config, key: Seq<char>) -> Seq<NeedView> {
    let q = c.qwen4->0;
    seq![
        linear(key + ".key_proj"@, q.ple_embed_dim as int, q.hc_mult * c.hidden_size, true),
        linear(key + ".value_proj"@, q.ple_embed_dim as int, c.hidden_size as int, true),
        tensor(key + ".norm_key.weight"@),
        tensor(key + ".norm_query.weight"@),
        tensor(key + ".norm_conv.weight"@),
        tensor(key + ".conv1d.weight"@),
    ]
}

/// What a part of a model is made of. The n-gram table has a plan of its own, and the head has
/// another key where it shares the embedding.
pub open spec fn part_needs_of(infos: Seq<TensorInfo>, c: Config, part: PartView) -> Seq<NeedView> {
    match part.kind {
        PartKind::Embedding => seq![tensor(part.key + ".weight"@)],
        PartKind::Block { sparse } => block_needs(infos, c, part.key, sparse),
        PartKind::Hybrid { full } => hybrid_needs(c, part.key, full),
        PartKind::Ple => injection_needs(c, part.key),
        PartKind::HyperConnected { full } => hyper_needs(infos, c, part.key, full),
        PartKind::NGram => seq![],
        PartKind::Mixer => connection_needs(part.key, false),
        PartKind::Norm => seq![tensor(part.key + ".weight"@)],
        PartKind::Head => seq![linear(part.key, c.hidden_size as int, c.vocab_size as int, false)],
    }
}

/// What the head that drafts the next tokens is made of.
pub open spec fn mtp_needs_of(c: Config) -> Seq<NeedView> {
    let hidden = c.hidden_size as int;
    seq![
        tensor("mtp.pre_fc_norm_hidden.weight"@),
        tensor("mtp.pre_fc_norm_embedding.weight"@),
        linear("mtp.fc"@, hidden * 2, hidden, true),
        tensor("mtp.layers.0.input_layernorm.weight"@),
    ] + attention_needs(c, "mtp.layers.0.self_attn"@) + seq![
        tensor("mtp.layers.0.post_attention_layernorm.weight"@),
    ] + mlp_needs("mtp.layers.0.mlp"@, hidden, c.intermediate_size as int) + seq![tensor("mtp.norm.weight"@)]
}

/// How many groups the drafter's convolutions have.
pub open spec fn groups_of(c: Config, p: DFlash2Params) -> int {
    quotient(c.hidden_size as int, p.conv_group_size as int)
}

pub open spec fn conv_needs(c: Config, p: DFlash2Params, key: Seq<char>) -> Seq<NeedView> {
    seq![
        tensor(key + ".base_kernel"@),
        linear(
            key + ".kernel_projection"@,
            c.hidden_size as int,
            2 * p.conv_kernel_size * groups_of(c, p),
            true,
        ),
    ]
}

pub open spec fn drafter_layer_needs(c: Config, p: DFlash2Params, i: nat) -> Seq<NeedView> {
    let key = "layers."@ + decimal(i);
    attention_needs(c, key + ".self_attn"@) + mlp_needs(
        key + ".mlp"@,
        c.hidden_size as int,
        c.intermediate_size as int,
    ) + seq![
        tensor(key + ".input_layernorm.weight"@),
        tensor(key + ".post_attention_layernorm.weight"@),
    ] + conv_needs(c, p, key + ".attention_conv"@) + conv_needs(c, p, key + ".mlp_conv"@)
}

pub open spec fn drafter_layers_needs(c: Config, p: DFlash2Params, n: nat) -> Seq<NeedView>
    decreases n,
{
    if n == 0 {
        seq![]
    } else {
        drafter_layers_needs(c, p, (n - 1) as nat) + drafter_layer_needs(c, p, (n - 1) as nat)
    }
}

/// What the block drafter is made of.
pub open spec fn drafter_needs_of(c: Config, p: DFlash2Params) -> Seq<NeedView> {
    let hidden = c.hidden_size as int;
    seq![
        linear("fc"@, hidden * p.target_layer_ids@.len(), hidden, true),
        tensor("hidden_norm.weight"@),
    ] + drafter_layers_needs(
        c,
        p,
        if c.num_hidden_layers >= 0 {
            c.num_hidden_layers as nat
        } else {
            0
        },
    ) + seq![
        tensor("norm.weight"@),
        linear("candidate_selector.hidden_projection"@, hidden, p.selector_rank as int, true),
        tensor("candidate_selector.predecessor_codebook"@),
        tensor("candidate_selector.successor_codebook"@),
    ]
}

/// Whether the drafter's widths can be counted.
pub open spec fn drafter_sized(c: Config, p: DFlash2Params) -> bool {
    &&& sized(c)
    &&& p.conv_group_size != 0
    &&& c.hidden_size != i64::MIN || p.conv_group_size != -1
    &&& i64::MIN <= 2 * p.conv_kernel_size <= i64::MAX
    &&& i64::MIN <= 2 * p.conv_kernel_size * groups_of(c, p) <= i64::MAX
    &&& p.target_layer_ids@.len() <= i64::MAX
    &&& i64::MIN <= c.hidden_size * p.target_layer_ids@.len() <= i64::MAX
}

fn push_need(v: &mut Vec<Need>, n: Need)
    ensures
        needs_of(final(v)@) == needs_of(old(v)@).push(n.view()),
{
    let ghost before = needs_of(v@);
    v.push(n);
    assert(needs_of(v@) =~= before.push(n.view()));
}

fn push_linear(v: &mut Vec<Need>, key: &Vec<char>, more: &str, in_features: i64, out_features: i64, trim: bool)
    ensures
        needs_of(final(v)@) == needs_of(old(v)@).push(
            linear(key@ + more@, in_features as int, out_features as int, trim),
        ),
{
    push_need(v, Need::Linear { key: name_with(key, more), in_features, out_features, trim });
}

fn push_tensor(v: &mut Vec<Need>, key: &Vec<char>, more: &str)
    ensures
        needs_of(final(v)@) == needs_of(old(v)@).push(tensor(key@ + more@)),
{
    push_need(v, Need::Tensor { name: name_with(key, more) });
}

fn longer(key: &Vec<char>, more: &str) -> (r: Vec<char>)
    ensures
        r@ == key@ + more@,
{
    let mut r = copy_chars(key, 0, key.len());
    assert(r@ =~= key@);
    push_text(&mut r, more);
    r
}

fn push_attention(v: &mut Vec<Need>, c: &Config, key: &Vec<char>)
    requires
        sized(*c),
    ensures
        needs_of(final(v)@) == needs_of(old(v)@) + attention_needs(*c, key@),
{
    let ghost before = needs_of(v@);
    let q: i64 = c.num_q_heads * c.head_dim;
    let kv: i64 = c.num_kv_heads * c.head_dim;
    let q_out: i64 = if c.attn_output_gate {
        q * 2
    } else {
        q
    };
    push_linear(v, key, ".q_proj", c.hidden_size, q_out, true);
    push_linear(v, key, ".k_proj", c.hidden_size, kv, true);
    push_linear(v, key, ".v_proj", c.hidden_size, kv, true);
    push_linear(v, key, ".o_proj", q, c.hidden_size, true);
    if c.qk_norm {
        push_tensor(v, key, ".q_norm.weight");
        push_tensor(v, key, ".k_norm.weight");
    }
    assert(needs_of(v@) =~= before + attention_needs(*c, key@));
}

fn push_mlp(v: &mut Vec<Need>, key: &Vec<char>, hidden: i64, width: i64)
    ensures
        needs_of(final(v)@) == needs_of(old(v)@) + mlp_needs(key@, hidden as int, width as int),
{
    let ghost before = needs_of(v@);
    push_linear(v, key, ".gate_proj", hidden, width, false);
    push_linear(v, key, ".up_proj", hidden, width, false);
    push_linear(v, key, ".down_proj", width, hidden, true);
    assert(needs_of(v@) =~= before + mlp_needs(key@, hidden as int, width as int));
}

fn push_experts(v: &mut Vec<Need>, key: &Vec<char>, hidden: i64, width: i64, n: usize)
    ensures
        needs_of(final(v)@) == needs_of(old(v)@) + experts_needs(key@, hidden as int, width as int, n as nat),
{
    let ghost before = needs_of(v@);
    let mut e: usize = 0;
    assert(before + seq![] =~= before);
    while e < n
        invariant
            e <= n,
            needs_of(v@) == before + experts_needs(key@, hidden as int, width as int, e as nat),
        decreases n - e,
    {
        let mut k = longer(key, ".experts.");
        push_decimal(&mut k, e);
        assert(k@ =~= expert_key(key@, e as nat));
        let ghost now = needs_of(v@);
        push_mlp(v, &k, hidden, width);
        e = e + 1;
        assert(needs_of(v@) =~= before + experts_needs(key@, hidden as int, width as int, e as nat));
    }
}

fn push_shared(v: &mut Vec<Need>, infos: &Vec<TensorInfo>, key: &Vec<char>, hidden: i64, width: i64)
    ensures
        needs_of(final(v)@) == needs_of(old(v)@) + shared_needs(infos@, key@, hidden as int, width),
{
    let ghost before = needs_of(v@);
    let at = string_of(key);
    match shared_expert(infos, at.as_str(), width) {
        SharedExpert::Absent => {
            assert(needs_of(v@) =~= before + shared_needs(infos@, key@, hidden as int, width));
        },
        SharedExpert::At { key: k } => {
            let k = chars_of(k.as_str());
            push_mlp(v, &k, hidden, width);
        },
        SharedExpert::Missing => {
            push_need(v, Need::SharedExpert { key: at });
            assert(needs_of(v@) =~= before + shared_needs(infos@, key@, hidden as int, width));
        },
    }
}

fn push_moe(v: &mut Vec<Need>, infos: &Vec<TensorInfo>, p: &MoeParams, hidden: i64, key: &Vec<char>)
    requires
        p.num_experts <= usize::MAX,
    ensures
        needs_of(final(v)@) == needs_of(old(v)@) + moe_needs(infos@, *p, hidden as int, key@),
{
    let ghost before = needs_of(v@);
    let n: usize = if p.num_experts >= 0 {
        p.num_experts as usize
    } else {
        0
    };
    push_tensor(v, key, ".gate.weight");
    push_experts(v, key, hidden, p.moe_intermediate_size, n);
    push_shared(v, infos, key, hidden, p.shared_expert_intermediate_size);
    if p.shared_gate {
        push_linear(v, key, ".shared_expert_gate", hidden, 1, false);
    }
    assert(needs_of(v@) =~= before + moe_needs(infos@, *p, hidden as int, key@));
}

fn push_block(v: &mut Vec<Need>, infos: &Vec<TensorInfo>, c: &Config, key: &Vec<char>, sparse: bool)
    requires
        sized(*c),
        c.moe is Some ==> c.moe->0.num_experts <= usize::MAX,
    ensures
        needs_of(final(v)@) == needs_of(old(v)@) + block_needs(infos@, *c, key@, sparse),
{
    let ghost before = needs_of(v@);
    let post = c.arch_kind.has_post_norms();
    push_tensor(v, key, ".input_layernorm.weight");
    push_attention(v, c, &longer(key, ".self_attn"));
    if post {
        push_tensor(v, key, ".post_self_attn_layernorm.weight");
    }
    push_tensor(v, key, ".post_attention_layernorm.weight");
    let mlp = longer(key, ".mlp");
    match &c.moe {
        Some(p) => {
            if sparse {
                push_moe(v, infos, p, c.hidden_size, &mlp);
            } else {
                push_mlp(v, &mlp, c.hidden_size, c.intermediate_size);
            }
        },
        None => {
            push_mlp(v, &mlp, c.hidden_size, c.intermediate_size);
        },
    }
    if post {
        push_tensor(v, key, ".post_mlp_layernorm.weight");
    }
    assert(needs_of(v@) =~= before + block_needs(infos@, *c, key@, sparse));
}

fn push_hybrid(v: &mut Vec<Need>, c: &Config, key: &Vec<char>, full: bool)
    requires
        sized(*c),
    ensures
        needs_of(final(v)@) == needs_of(old(v)@) + hybrid_needs(*c, key@, full),
{
    let ghost before = needs_of(v@);
    if full {
        push_attention(v, c, &longer(key, ".self_attn"));
    }
    push_tensor(v, key, ".input_layernorm.weight");
    push_tensor(v, key, ".post_attention_layernorm.weight");
    push_mlp(v, &longer(key, ".mlp"), c.hidden_size, c.intermediate_size);
    assert(needs_of(v@) =~= before + hybrid_needs(*c, key@, full));
}

fn push_connection(v: &mut Vec<Need>, key: &Vec<char>, combine: bool)
    ensures
        needs_of(final(v)@) == needs_of(old(v)@) + connection_needs(key@, combine),
{
    let ghost before = needs_of(v@);
    push_tensor(v, key, ".hc_norm.weight");
    push_tensor(v, key, ".input_mix_weight_down.weight");
    push_tensor(v, key, ".input_mix_weight_up.weight");
    if combine {
        push_tensor(v, key, ".block_inject_weight.weight");
    }
    assert(needs_of(v@) =~= before + connection_needs(key@, combine));
}

fn push_hyper(v: &mut Vec<Need>, infos: &Vec<TensorInfo>, c: &Config, key: &Vec<char>, full: bool)
    requires
        sized(*c),
        c.moe is Some ==> c.moe->0.num_experts <= usize::MAX,
    ensures
        needs_of(final(v)@) == needs_of(old(v)@) + hyper_needs(infos@, *c, key@, full),
{
    let ghost before = needs_of(v@);
    if full {
        push_attention(v, c, &longer(key, ".self_attn"));
    }
    push_connection(v, &longer(key, ".attn_hyper_connection"), true);
    push_connection(v, &longer(key, ".mlp_hyper_connection"), true);
    match &c.moe {
        Some(p) => {
            push_moe(v, infos, p, c.hidden_size, &longer(key, ".mlp"));
        },
        None => {},
    }
    assert(needs_of(v@) =~= before + hyper_needs(infos@, *c, key@, full));
}

fn push_injection(v: &mut Vec<Need>, c: &Config, key: &Vec<char>)
    requires
        c.qwen4 is Some,
        i64::MIN <= c.qwen4->0.hc_mult * c.hidden_size <= i64::MAX,
    ensures
        needs_of(final(v)@) == needs_of(old(v)@) + injection_needs(*c, key@),
{
    let ghost before = needs_of(v@);
    match &c.qwen4 {
        Some(q) => {
            push_linear(v, key, ".key_proj", q.ple_embed_dim, q.hc_mult * c.hidden_size, true);
            push_linear(v, key, ".value_proj", q.ple_embed_dim, c.hidden_size, true);
            push_tensor(v, key, ".norm_key.weight");
            push_tensor(v, key, ".norm_query.weight");
            push_tensor(v, key, ".norm_conv.weight");
            push_tensor(v, key, ".conv1d.weight");
        },
        None => {},
    }
    assert(needs_of(v@) =~= before + injection_needs(*c, key@));
}

/// What a part of a model is made of.
pub fn part_needs(infos: &Vec<TensorInfo>, c: &Config, part: &Part) -> (r: Vec<Need>)
    requires
        sized(*c),
        c.moe is Some ==> c.moe->0.num_experts <= usize::MAX,
        part.kind == PartKind::Ple ==> c.qwen4 is Some && i64::MIN <= c.qwen4->0.hc_mult * c.hidden_size <= i64::MAX,
    ensures
        needs_of(r@) == part_needs_of(infos@, *c, part.view()),
{
    let mut v: Vec<Need> = Vec::new();
    let key = chars_of(part.key.as_str());
    let ghost want = part_needs_of(infos@, *c, part.view());
    assert(needs_of(v@) =~= seq![]);
    proof {
        reveal_strlit("");
        assert(key@ + ""@ =~= key@);
    }
    match part.kind {
        PartKind::Embedding => {
            push_tensor(&mut v, &key, ".weight");
        },
        PartKind::Block { sparse } => {
            push_block(&mut v, infos, c, &key, sparse);
        },
        PartKind::Hybrid { full } => {
            push_hybrid(&mut v, c, &key, full);
        },
        PartKind::Ple => {
            push_injection(&mut v, c, &key);
        },
        PartKind::HyperConnected { full } => {
            push_hyper(&mut v, infos, c, &key, full);
        },
        PartKind::NGram => {},
        PartKind::Mixer => {
            push_connection(&mut v, &key, false);
        },
        PartKind::Norm => {
            push_tensor(&mut v, &key, ".weight");
        },
        PartKind::Head => {
            push_linear(&mut v, &key, "", c.hidden_size, c.vocab_size, false);
        },
    }
    assert(needs_of(v@) =~= want);
    v
}

/// What the head that drafts the next tokens is made of.
pub fn mtp_needs(c: &Config) -> (r: Vec<Need>)
    requires
        sized(*c),
        i64::MIN <= c.hidden_size * 2 <= i64::MAX,
    ensures
        needs_of(r@) == mtp_needs_of(*c),
{
    let mut v: Vec<Need> = Vec::new();
    let root: Vec<char> = Vec::new();
    assert(needs_of(v@) =~= seq![]);
    assert forall|s: Seq<char>| #[trigger] (root@ + s) == s by {
        assert(root@ + s =~= s);
    }
    push_tensor(&mut v, &root, "mtp.pre_fc_norm_hidden.weight");
    push_tensor(&mut v, &root, "mtp.pre_fc_norm_embedding.weight");
    push_linear(&mut v, &root, "mtp.fc", c.hidden_size * 2, c.hidden_size, true);
    push_tensor(&mut v, &root, "mtp.layers.0.input_layernorm.weight");
    push_attention(&mut v, c, &longer(&root, "mtp.layers.0.self_attn"));
    push_tensor(&mut v, &root, "mtp.layers.0.post_attention_layernorm.weight");
    push_mlp(&mut v, &longer(&root, "mtp.layers.0.mlp"), c.hidden_size, c.intermediate_size);
    push_tensor(&mut v, &root, "mtp.norm.weight");
    assert(needs_of(v@) =~= mtp_needs_of(*c));
    v
}

fn push_conv(v: &mut Vec<Need>, c: &Config, p: &DFlash2Params, key: &Vec<char>)
    requires
        drafter_sized(*c, *p),
    ensures
        needs_of(final(v)@) == needs_of(old(v)@) + conv_needs(*c, *p, key@),
{
    let ghost before = needs_of(v@);
    let groups: i64 = divide(c.hidden_size, p.conv_group_size);
    push_tensor(v, key, ".base_kernel");
    push_linear(v, key, ".kernel_projection", c.hidden_size, 2 * p.conv_kernel_size * groups, true);
    assert(needs_of(v@) =~= before + conv_needs(*c, *p, key@));
}

fn push_drafter_layer(v: &mut Vec<Need>, c: &Config, p: &DFlash2Params, i: usize)
    requires
        drafter_sized(*c, *p),
    ensures
        needs_of(final(v)@) == needs_of(old(v)@) + drafter_layer_needs(*c, *p, i as nat),
{
    let ghost before = needs_of(v@);
    let mut key = chars_of("layers.");
    push_decimal(&mut key, i);
    push_attention(v, c, &longer(&key, ".self_attn"));
    push_mlp(v, &longer(&key, ".mlp"), c.hidden_size, c.intermediate_size);
    push_tensor(v, &key, ".input_layernorm.weight");
    push_tensor(v, &key, ".post_attention_layernorm.weight");
    push_conv(v, c, p, &longer(&key, ".attention_conv"));
    push_conv(v, c, p, &longer(&key, ".mlp_conv"));
    assert(needs_of(v@) =~= before + drafter_layer_needs(*c, *p, i as nat));
}

/// What the block drafter is made of.
pub fn drafter_needs(c: &Config, p: &DFlash2Params) -> (r: Vec<Need>)
    requires
        drafter_sized(*c, *p),
        c.num_hidden_layers <= usize::MAX,
    ensures
        needs_of(r@) == drafter_needs_of(*c, *p),
{
    let mut v: Vec<Need> = Vec::new();
    let root: Vec<char> = Vec::new();
    assert(needs_of(v@) =~= seq![]);
    assert forall|s: Seq<char>| #[trigger] (root@ + s) == s by {
        assert(root@ + s =~= s);
    }
    let taps: i64 = p.target_layer_ids.len() as i64;
    push_linear(&mut v, &root, "fc", c.hidden_size * taps, c.hidden_size, true);
    push_tensor(&mut v, &root, "hidden_norm.weight");
    let ghost before = needs_of(v@);
    let n: usize = if c.num_hidden_layers >= 0 {
        c.num_hidden_layers as usize
    } else {
        0
    };
    let mut i: usize = 0;
    assert(before + seq![] =~= before);
    while i < n
        invariant
            i <= n,
            drafter_sized(*c, *p),
            needs_of(v@) == before + drafter_layers_needs(*c, *p, i as nat),
        decreases n - i,
    {
        push_drafter_layer(&mut v, c, p, i);
        i = i + 1;
        assert(needs_of(v@) =~= before + drafter_layers_needs(*c, *p, i as nat));
    }
    push_tensor(&mut v, &root, "norm.weight");
    push_linear(&mut v, &root, "candidate_selector.hidden_projection", c.hidden_size, p.selector_rank, true);
    push_tensor(&mut v, &root, "candidate_selector.predecessor_codebook");
    push_tensor(&mut v, &root, "candidate_selector.successor_codebook");
    assert(needs_of(v@) =~= drafter_needs_of(*c, *p));
    v
}

/// Why a part cannot be loaded.
pub enum LoadError {
    Linear(LinearError),
    Missing { name: String },
    /// The width of a shared expert is given, but it is not there.
    NoSharedExpert { key: String },
}

/// Whether a need is met, by a plan where it is a linear layer.
pub open spec fn met(infos: Seq<TensorInfo>, n: NeedView, p: Option<LinearPlan>) -> bool {
    match n {
        NeedView::Linear { key, in_features, out_features, trim } => p matches Some(p) && planned(
            infos,
            key,
            None,
            in_features,
            out_features,
            trim,
            Ok(p),
        ),
        NeedView::Tensor { name } => p is None && present(infos, name),
        NeedView::SharedExpert { .. } => false,
    }
}

/// Whether a need is not met, for a reason.
pub open spec fn unmet(infos: Seq<TensorInfo>, n: NeedView, e: LoadError) -> bool {
    match n {
        NeedView::Linear { key, in_features, out_features, trim } => e matches LoadError::Linear(x) && planned(
            infos,
            key,
            None,
            in_features,
            out_features,
            trim,
            Err(x),
        ),
        NeedView::Tensor { name } => e matches LoadError::Missing { name: m } && m@ == name && !present(infos, name),
        NeedView::SharedExpert { key } => e matches LoadError::NoSharedExpert { key: k } && k@ == key,
    }
}

/// Whether a linear layer is not wider than can be padded.
pub open spec fn paddable(n: NeedView) -> bool {
    n matches NeedView::Linear { in_features, out_features, .. } ==> in_features <= i64::MAX - 127 && out_features
        <= i64::MAX - 127
}

fn load_need(infos: &Vec<TensorInfo>, need: &Need) -> (r: Result<Option<LinearPlan>, LoadError>)
    requires
        paddable(need.view()),
    ensures
        match r {
            Ok(p) => met(infos@, need.view(), p),
            Err(e) => unmet(infos@, need.view(), e),
        },
{
    match need {
        Need::Linear { key, in_features, out_features, trim } => {
            match LinearPlan::load(infos, key.as_str(), None, *in_features, *out_features, *trim) {
                Ok(p) => Ok(Some(p)),
                Err(e) => Err(LoadError::Linear(e)),
            }
        },
        Need::Tensor { name } => {
            match find(infos, name.as_str()) {
                Some(_) => Ok(None),
                None => Err(LoadError::Missing { name: name.clone() }),
            }
        },
        Need::SharedExpert { key } => Err(LoadError::NoSharedExpert { key: key.clone() }),
    }
}

/// The plans of the linear layers among the needs, at their places; or why the first need that is
/// not met is not.
pub fn load_needs(infos: &Vec<TensorInfo>, needs: &Vec<Need>) -> (r: Result<Vec<Option<LinearPlan>>, LoadError>)
    requires
        forall|i: int| 0 <= i < needs@.len() ==> paddable((#[trigger] needs@[i]).view()),
    ensures
        match r {
            Ok(plans) => plans@.len() == needs@.len() && forall|i: int|
                0 <= i < needs@.len() ==> met(infos@, (#[trigger] needs@[i]).view(), plans@[i]),
            Err(e) => exists|k: int|
                {
                    &&& 0 <= k < needs@.len()
                    &&& unmet(infos@, (#[trigger] needs@[k]).view(), e)
                    &&& forall|i: int|
                        0 <= i < k ==> exists|p: Option<LinearPlan>| #[trigger] met(infos@, (#[trigger] needs@[i]).view(), p)
                },
        },
{
    let mut plans: Vec<Option<LinearPlan>> = Vec::new();
    let mut k: usize = 0;
    while k < needs.len()
        invariant
            k <= needs@.len(),
            plans@.len() == k,
            forall|i: int| 0 <= i < needs@.len() ==> paddable((#[trigger] needs@[i]).view()),
            forall|i: int| 0 <= i < k ==> met(infos@, (#[trigger] needs@[i]).view(), plans@[i]),
        decreases needs@.len() - k,
    {
        assert(paddable(needs@[k as int].view()));
        match load_need(infos, &needs[k]) {
            Ok(p) => {
                plans.push(p);
            },
            Err(e) => {
                proof {
                    assert forall|i: int| 0 <= i < k implies exists|p: Option<LinearPlan>| #[trigger]
                        met(infos@, (#[trigger] needs@[i]).view(), p) by {
                        assert(met(infos@, needs@[i].view(), plans@[i]));
                    }
                    assert(unmet(infos@, needs@[k as int].view(), e));
                }
                return Err(e);
            },
        }
        k = k + 1;
    }
    Ok(plans)
}

} // verus!
