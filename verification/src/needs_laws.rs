//! What the parts of a model need, in terms of the widths that its configuration gives.
use vstd::prelude::*;

use crate::config::{ArchKind, Config, MoeParams};
use crate::dflash2::DFlash2Params;
use crate::model::{PartKind, PartView};
use crate::moe::has_down;
use crate::needs::{
    attention_needs, block_needs, drafter_layer_needs, drafter_layers_needs, drafter_needs_of, expert_key,
    experts_needs, hybrid_needs, hyper_needs, linear, mlp_needs, moe_needs, mtp_needs_of, part_needs_of, shared_needs,
    tensor, NeedView,
};
use crate::tensors::TensorInfo;
use crate::text::decimal;

verus! {

/// Whether a linear layer under `key` is needed, of so many inputs and outputs.
pub open spec fn asks_linear(v: Seq<NeedView>, key: Seq<char>, inputs: int, outputs: int, trim: bool) -> bool {
    exists|i: int| 0 <= i < v.len() && #[trigger] v[i] == linear(key, inputs, outputs, trim)
}

/// Whether a tensor is needed.
pub open spec fn asks_tensor(v: Seq<NeedView>, name: Seq<char>) -> bool {
    exists|i: int| 0 <= i < v.len() && #[trigger] v[i] == tensor(name)
}

/// Whether all of one list is needed in another.
pub open spec fn asks_all(v: Seq<NeedView>, w: Seq<NeedView>) -> bool {
    forall|i: int| 0 <= i < w.len() ==> v.contains(#[trigger] w[i])
}

/// Whether a gated feed-forward part under `key` is needed: two projections to its width, and one
/// back.
pub open spec fn asks_mlp(v: Seq<NeedView>, key: Seq<char>, hidden: int, width: int) -> bool {
    &&& asks_linear(v, key + ".gate_proj"@, hidden, width, false)
    &&& asks_linear(v, key + ".up_proj"@, hidden, width, false)
    &&& asks_linear(v, key + ".down_proj"@, width, hidden, true)
}

/// Whether an attention under `key` is needed: queries of all heads, twice where the output is
/// gated; keys and values of their heads; the projection of all heads back; and the norms of
/// queries and keys where they are normed.
pub open spec fn asks_attention(v: Seq<NeedView>, c: Config, key: Seq<char>) -> bool {
    let q = c.num_q_heads * c.head_dim;
    let kv = c.num_kv_heads * c.head_dim;
    let hidden = c.hidden_size as int;
    &&& c.attn_output_gate ==> asks_linear(v, key + ".q_proj"@, hidden, q + q, true)
    &&& !c.attn_output_gate ==> asks_linear(v, key + ".q_proj"@, hidden, q, true)
    &&& asks_linear(v, key + ".k_proj"@, hidden, kv, true)
    &&& asks_linear(v, key + ".v_proj"@, hidden, kv, true)
    &&& asks_linear(v, key + ".o_proj"@, q, hidden, true)
    &&& c.qk_norm ==> asks_tensor(v, key + ".q_norm.weight"@) && asks_tensor(v, key + ".k_norm.weight"@)
}

/// Whether `a` stands in `v` from `at` on.
spec fn stands(v: Seq<NeedView>, a: Seq<NeedView>, at: int) -> bool {
    0 <= at && at + a.len() <= v.len() && v.subrange(at, at + a.len()) == a
}

proof fn lemma_stands(v: Seq<NeedView>, a: Seq<NeedView>, at: int, i: int)
    requires
        stands(v, a, at),
        0 <= i < a.len(),
    ensures
        v[at + i] == a[i],
{
    assert(v.subrange(at, at + a.len())[i] == a[i]);
}

proof fn lemma_attention_stands(v: Seq<NeedView>, at: int, c: Config, key: Seq<char>)
    requires
        stands(v, attention_needs(c, key), at),
    ensures
        asks_attention(v, c, key),
{
    let a = attention_needs(c, key);
    lemma_stands(v, a, at, 0);
    lemma_stands(v, a, at, 1);
    lemma_stands(v, a, at, 2);
    lemma_stands(v, a, at, 3);
    assert(c.num_q_heads * c.head_dim * 2 == c.num_q_heads * c.head_dim + c.num_q_heads * c.head_dim);
    if c.qk_norm {
        lemma_stands(v, a, at, 4);
        lemma_stands(v, a, at, 5);
    }
}

proof fn lemma_mlp_stands(v: Seq<NeedView>, at: int, key: Seq<char>, hidden: int, width: int)
    requires
        stands(v, mlp_needs(key, hidden, width), at),
    ensures
        asks_mlp(v, key, hidden, width),
{
    let a = mlp_needs(key, hidden, width);
    lemma_stands(v, a, at, 0);
    lemma_stands(v, a, at, 1);
    lemma_stands(v, a, at, 2);
}

proof fn lemma_expert(key: Seq<char>, hidden: int, width: int, n: nat, e: nat)
    requires
        e < n,
    ensures
        experts_needs(key, hidden, width, n).len() == 3 * n,
        experts_needs(key, hidden, width, n).subrange(3 * e as int, 3 * e as int + 3) == mlp_needs(
            expert_key(key, e),
            hidden,
            width,
        ),
    decreases n,
{
    let m = (n - 1) as nat;
    lemma_experts_len(key, hidden, width, n);
    lemma_experts_len(key, hidden, width, m);
    let all = experts_needs(key, hidden, width, n);
    let rest = experts_needs(key, hidden, width, m);
    let last = mlp_needs(expert_key(key, m), hidden, width);
    assert(all == rest + last);
    if e == m {
        assert(all.subrange(3 * e as int, 3 * e as int + 3) =~= last);
    } else {
        lemma_expert(key, hidden, width, m, e);
        assert(all.subrange(3 * e as int, 3 * e as int + 3) =~= rest.subrange(3 * e as int, 3 * e as int + 3));
    }
}

proof fn lemma_experts_len(key: Seq<char>, hidden: int, width: int, n: nat)
    ensures
        experts_needs(key, hidden, width, n).len() == 3 * n,
    decreases n,
{
    if n > 0 {
        lemma_experts_len(key, hidden, width, (n - 1) as nat);
    }
}

/// A part with experts needs its router, and every one of its experts under its own number.
pub proof fn every_expert_is_needed(infos: Seq<TensorInfo>, p: MoeParams, hidden: int, key: Seq<char>, e: nat)
    requires
        e < p.num_experts,
    ensures
        asks_tensor(moe_needs(infos, p, hidden, key), key + ".gate.weight"@),
        asks_mlp(
            moe_needs(infos, p, hidden, key),
            key + ".experts."@ + decimal(e),
            hidden,
            p.moe_intermediate_size as int,
        ),
        p.shared_gate ==> asks_linear(moe_needs(infos, p, hidden, key), key + ".shared_expert_gate"@, hidden, 1, false),
{
    let v = moe_needs(infos, p, hidden, key);
    let n = p.num_experts as nat;
    let width = p.moe_intermediate_size as int;
    lemma_expert(key, hidden, width, n, e);
    let ex = experts_needs(key, hidden, width, n);
    let a = mlp_needs(expert_key(key, e), hidden, width);
    assert(v[0] == tensor(key + ".gate.weight"@));
    assert(v.subrange(1 + 3 * e as int, 1 + 3 * e as int + 3) =~= a) by {
        assert(ex.subrange(3 * e as int, 3 * e as int + 3) == a);
        assert forall|i: int| 0 <= i < 3 implies v[1 + 3 * e as int + i] == #[trigger] a[i] by {
            assert(ex.subrange(3 * e as int, 3 * e as int + 3)[i] == ex[3 * e as int + i]);
        }
    }
    lemma_mlp_stands(v, 1 + 3 * e as int, expert_key(key, e), hidden, width);
    if p.shared_gate {
        assert(v.last() == linear(key + ".shared_expert_gate"@, hidden, 1, false));
    }
}

/// A block needs its norms, its attention, and a feed-forward part: with experts where it is
/// sparse, and of the model's width where it is not. Where the outputs are normed too, it needs
/// these norms as well.
pub proof fn blocks_need_attention_and_feed_forward(infos: Seq<TensorInfo>, c: Config, key: Seq<char>, sparse: bool)
    ensures
        ({
            let v = block_needs(infos, c, key, sparse);
            &&& asks_tensor(v, key + ".input_layernorm.weight"@)
            &&& asks_tensor(v, key + ".post_attention_layernorm.weight"@)
            &&& asks_attention(v, c, key + ".self_attn"@)
            &&& !sparse || c.moe is None ==> asks_mlp(
                v,
                key + ".mlp"@,
                c.hidden_size as int,
                c.intermediate_size as int,
            )
            &&& sparse && c.moe is Some ==> asks_all(
                v,
                moe_needs(infos, c.moe->0, c.hidden_size as int, key + ".mlp"@),
            )
            &&& c.arch_kind == ArchKind::Glm4 ==> asks_tensor(v, key + ".post_self_attn_layernorm.weight"@)
                && asks_tensor(v, key + ".post_mlp_layernorm.weight"@)
        }),
{
    let v = block_needs(infos, c, key, sparse);
    let a = attention_needs(c, key + ".self_attn"@);
    let hidden = c.hidden_size as int;
    let width = c.intermediate_size as int;
    assert(v[0] == tensor(key + ".input_layernorm.weight"@));
    assert(v.subrange(1, 1 + a.len() as int) =~= a);
    lemma_attention_stands(v, 1, c, key + ".self_attn"@);
    let post: int = if c.arch_kind == ArchKind::Glm4 {
        1
    } else {
        0
    };
    let at = 1 + a.len() + post;
    if post == 1 {
        assert(v[1 + a.len() as int] == tensor(key + ".post_self_attn_layernorm.weight"@));
        assert(v.last() == tensor(key + ".post_mlp_layernorm.weight"@));
    }
    assert(v[at] == tensor(key + ".post_attention_layernorm.weight"@));
    if sparse && c.moe is Some {
        let m = moe_needs(infos, c.moe->0, hidden, key + ".mlp"@);
        assert forall|i: int| 0 <= i < m.len() implies v.contains(#[trigger] m[i]) by {
            assert(v[at + 1 + i] == m[i]);
        }
    } else {
        let m = mlp_needs(key + ".mlp"@, hidden, width);
        assert(v.subrange(at + 1, at + 1 + m.len()) =~= m);
        lemma_mlp_stands(v, at + 1, key + ".mlp"@, hidden, width);
    }
}

/// A layer of a hybrid stack needs its norms and its feed-forward part, and where it attends
/// fully its attention.
pub proof fn hybrid_layers_need_their_parts(c: Config, key: Seq<char>, full: bool)
    ensures
        ({
            let v = hybrid_needs(c, key, full);
            &&& full ==> asks_attention(v, c, key + ".self_attn"@)
            &&& asks_tensor(v, key + ".input_layernorm.weight"@)
            &&& asks_tensor(v, key + ".post_attention_layernorm.weight"@)
            &&& asks_mlp(v, key + ".mlp"@, c.hidden_size as int, c.intermediate_size as int)
        }),
{
    let v = hybrid_needs(c, key, full);
    let m = mlp_needs(key + ".mlp"@, c.hidden_size as int, c.intermediate_size as int);
    let a = attention_needs(c, key + ".self_attn"@);
    let at: int = if full {
        a.len() as int
    } else {
        0
    };
    if full {
        assert(v.subrange(0, a.len() as int) =~= a);
        lemma_attention_stands(v, 0, c, key + ".self_attn"@);
    }
    assert(v[at] == tensor(key + ".input_layernorm.weight"@));
    assert(v[at + 1] == tensor(key + ".post_attention_layernorm.weight"@));
    assert(v.subrange(at + 2, at + 2 + m.len()) =~= m);
    lemma_mlp_stands(v, at + 2, key + ".mlp"@, c.hidden_size as int, c.intermediate_size as int);
}

/// A layer with hyper-connections needs both of them with what each is mixed by, its experts, and
/// where it attends fully its attention.
pub proof fn hyper_layers_need_their_parts(infos: Seq<TensorInfo>, c: Config, key: Seq<char>, full: bool)
    requires
        c.moe is Some,
    ensures
        ({
            let v = hyper_needs(infos, c, key, full);
            &&& full ==> asks_attention(v, c, key + ".self_attn"@)
            &&& asks_all(v, moe_needs(infos, c.moe->0, c.hidden_size as int, key + ".mlp"@))
            &&& asks_tensor(v, key + ".attn_hyper_connection"@ + ".hc_norm.weight"@)
            &&& asks_tensor(v, key + ".attn_hyper_connection"@ + ".input_mix_weight_down.weight"@)
            &&& asks_tensor(v, key + ".attn_hyper_connection"@ + ".input_mix_weight_up.weight"@)
            &&& asks_tensor(v, key + ".attn_hyper_connection"@ + ".block_inject_weight.weight"@)
            &&& asks_tensor(v, key + ".mlp_hyper_connection"@ + ".hc_norm.weight"@)
            &&& asks_tensor(v, key + ".mlp_hyper_connection"@ + ".input_mix_weight_down.weight"@)
            &&& asks_tensor(v, key + ".mlp_hyper_connection"@ + ".input_mix_weight_up.weight"@)
            &&& asks_tensor(v, key + ".mlp_hyper_connection"@ + ".block_inject_weight.weight"@)
        }),
{
    let v = hyper_needs(infos, c, key, full);
    let m = moe_needs(infos, c.moe->0, c.hidden_size as int, key + ".mlp"@);
    let a = attention_needs(c, key + ".self_attn"@);
    let at: int = if full {
        a.len() as int
    } else {
        0
    };
    if full {
        assert(v.subrange(0, a.len() as int) =~= a);
        lemma_attention_stands(v, 0, c, key + ".self_attn"@);
    }
    let x = key + ".attn_hyper_connection"@;
    let y = key + ".mlp_hyper_connection"@;
    assert(v[at] == tensor(x + ".hc_norm.weight"@));
    assert(v[at + 1] == tensor(x + ".input_mix_weight_down.weight"@));
    assert(v[at + 2] == tensor(x + ".input_mix_weight_up.weight"@));
    assert(v[at + 3] == tensor(x + ".block_inject_weight.weight"@));
    assert(v[at + 4] == tensor(y + ".hc_norm.weight"@));
    assert(v[at + 5] == tensor(y + ".input_mix_weight_down.weight"@));
    assert(v[at + 6] == tensor(y + ".input_mix_weight_up.weight"@));
    assert(v[at + 7] == tensor(y + ".block_inject_weight.weight"@));
    assert forall|i: int| 0 <= i < m.len() implies v.contains(#[trigger] m[i]) by {
        assert(v[at + 8 + i] == m[i]);
    }
}

/// The head that drafts takes a hidden state and an embedding side by side, and needs the norms of
/// both, a layer of the model's widths, and the last norm.
pub proof fn heads_that_draft_need_a_layer(c: Config)
    ensures
        ({
            let v = mtp_needs_of(c);
            &&& asks_linear(v, "mtp.fc"@, c.hidden_size + c.hidden_size, c.hidden_size as int, true)
            &&& asks_tensor(v, "mtp.pre_fc_norm_hidden.weight"@)
            &&& asks_tensor(v, "mtp.pre_fc_norm_embedding.weight"@)
            &&& asks_tensor(v, "mtp.layers.0.input_layernorm.weight"@)
            &&& asks_attention(v, c, "mtp.layers.0.self_attn"@)
            &&& asks_tensor(v, "mtp.layers.0.post_attention_layernorm.weight"@)
            &&& asks_mlp(v, "mtp.layers.0.mlp"@, c.hidden_size as int, c.intermediate_size as int)
            &&& asks_tensor(v, "mtp.norm.weight"@)
        }),
{
    let v = mtp_needs_of(c);
    let a = attention_needs(c, "mtp.layers.0.self_attn"@);
    let m = mlp_needs("mtp.layers.0.mlp"@, c.hidden_size as int, c.intermediate_size as int);
    let n = a.len() as int;
    assert(v[0] == tensor("mtp.pre_fc_norm_hidden.weight"@));
    assert(v[1] == tensor("mtp.pre_fc_norm_embedding.weight"@));
    assert(v[2] == linear("mtp.fc"@, c.hidden_size + c.hidden_size, c.hidden_size as int, true));
    assert(v[3] == tensor("mtp.layers.0.input_layernorm.weight"@));
    assert(v.subrange(4, 4 + a.len() as int) =~= a);
    lemma_attention_stands(v, 4, c, "mtp.layers.0.self_attn"@);
    assert(v[4 + n] == tensor("mtp.layers.0.post_attention_layernorm.weight"@));
    assert(v.subrange(5 + n, 5 + n + m.len()) =~= m);
    lemma_mlp_stands(v, 5 + n, "mtp.layers.0.mlp"@, c.hidden_size as int, c.intermediate_size as int);
    assert(v[8 + n] == tensor("mtp.norm.weight"@));
}

proof fn lemma_drafter_layer(c: Config, p: DFlash2Params, n: nat, i: nat) -> (at: int)
    requires
        i < n,
    ensures
        stands(drafter_layers_needs(c, p, n), drafter_layer_needs(c, p, i), at),
    decreases n,
{
    let m = (n - 1) as nat;
    let all = drafter_layers_needs(c, p, n);
    let rest = drafter_layers_needs(c, p, m);
    let one = drafter_layer_needs(c, p, i);
    if i == m {
        assert(all.subrange(rest.len() as int, rest.len() as int + one.len()) =~= one);
        rest.len() as int
    } else {
        let at = lemma_drafter_layer(c, p, m, i);
        assert(all.subrange(at, at + one.len()) =~= rest.subrange(at, at + one.len()));
        at
    }
}

/// The block drafter takes the states of all its target layers side by side, and needs every one
/// of its own layers: attention, feed-forward part, norms, and the kernels of both
/// convolutions.
pub proof fn drafters_need_every_layer(c: Config, p: DFlash2Params, i: nat)
    requires
        i < c.num_hidden_layers,
    ensures
        ({
            let v = drafter_needs_of(c, p);
            let key = "layers."@ + decimal(i);
            &&& asks_linear(v, "fc"@, c.hidden_size * p.target_layer_ids@.len(), c.hidden_size as int, true)
            &&& asks_tensor(v, "hidden_norm.weight"@)
            &&& asks_tensor(v, "norm.weight"@)
            &&& asks_linear(
                v,
                "candidate_selector.hidden_projection"@,
                c.hidden_size as int,
                p.selector_rank as int,
                true,
            )
            &&& asks_tensor(v, "candidate_selector.predecessor_codebook"@)
            &&& asks_tensor(v, "candidate_selector.successor_codebook"@)
            &&& asks_attention(v, c, key + ".self_attn"@)
            &&& asks_mlp(v, key + ".mlp"@, c.hidden_size as int, c.intermediate_size as int)
            &&& asks_tensor(v, key + ".input_layernorm.weight"@)
            &&& asks_tensor(v, key + ".post_attention_layernorm.weight"@)
            &&& asks_tensor(v, key + ".attention_conv"@ + ".base_kernel"@)
            &&& asks_tensor(v, key + ".mlp_conv"@ + ".base_kernel"@)
        }),
{
    let n = c.num_hidden_layers as nat;
    let v = drafter_needs_of(c, p);
    let ls = drafter_layers_needs(c, p, n);
    let one = drafter_layer_needs(c, p, i);
    let key = "layers."@ + decimal(i);
    let at = lemma_drafter_layer(c, p, n, i);
    let hidden = c.hidden_size as int;
    let width = c.intermediate_size as int;
    assert(v[0] == linear("fc"@, hidden * p.target_layer_ids@.len(), hidden, true));
    assert(v[1] == tensor("hidden_norm.weight"@));
    let z: int = 2 + ls.len() as int;
    assert(v[z] == tensor("norm.weight"@));
    assert(v[z + 1] == linear("candidate_selector.hidden_projection"@, hidden, p.selector_rank as int, true));
    assert(v[z + 2] == tensor("candidate_selector.predecessor_codebook"@));
    assert(v[z + 3] == tensor("candidate_selector.successor_codebook"@));
    assert(stands(v, one, 2 + at)) by {
        assert(v.subrange(2 + at, 2 + at + one.len()) =~= ls.subrange(at, at + one.len()));
    }
    let a = attention_needs(c, key + ".self_attn"@);
    let m = mlp_needs(key + ".mlp"@, hidden, width);
    let k = a.len() as int;
    assert(v.subrange(2 + at, 2 + at + a.len()) =~= a) by {
        assert forall|j: int| 0 <= j < a.len() implies v[2 + at + j] == #[trigger] a[j] by {
            lemma_stands(v, one, 2 + at, j);
        }
    }
    lemma_attention_stands(v, 2 + at, c, key + ".self_attn"@);
    assert(v.subrange(2 + at + k, 2 + at + k + m.len()) =~= m) by {
        assert forall|j: int| 0 <= j < m.len() implies v[2 + at + k + j] == #[trigger] m[j] by {
            lemma_stands(v, one, 2 + at, k + j);
        }
    }
    lemma_mlp_stands(v, 2 + at + k, key + ".mlp"@, hidden, width);
    lemma_stands(v, one, 2 + at, k + 3);
    lemma_stands(v, one, 2 + at, k + 4);
    lemma_stands(v, one, 2 + at, k + 5);
    lemma_stands(v, one, 2 + at, k + 7);
    assert(one[k + 3] == tensor(key + ".input_layernorm.weight"@));
    assert(one[k + 4] == tensor(key + ".post_attention_layernorm.weight"@));
    assert(one[k + 5] == tensor(key + ".attention_conv"@ + ".base_kernel"@));
    assert(one[k + 7] == tensor(key + ".mlp_conv"@ + ".base_kernel"@));
}

/// A part needs what stands under its own key: the embedding and the norms their weights, the head
/// a layer from the hidden size to the vocabulary, a block, a hybrid layer and one with
/// hyper-connections what they are made of.
pub proof fn parts_need_what_stands_under_their_keys(infos: Seq<TensorInfo>, c: Config, part: PartView)
    ensures
        ({
            let v = part_needs_of(infos, c, part);
            match part.kind {
                PartKind::Embedding | PartKind::Norm => asks_tensor(v, part.key + ".weight"@),
                PartKind::Head => asks_linear(v, part.key, c.hidden_size as int, c.vocab_size as int, false),
                PartKind::Block { sparse } => asks_all(v, block_needs(infos, c, part.key, sparse)),
                PartKind::Hybrid { full } => asks_all(v, hybrid_needs(c, part.key, full)),
                PartKind::HyperConnected { full } => asks_all(v, hyper_needs(infos, c, part.key, full)),
                _ => true,
            }
        }),
{
    let v = part_needs_of(infos, c, part);
    assert(asks_all(v, v)) by {
        assert forall|i: int| 0 <= i < v.len() implies v.contains(#[trigger] v[i]) by {}
    }
    match part.kind {
        PartKind::Embedding | PartKind::Norm => {
            assert(v[0] == tensor(part.key + ".weight"@));
        },
        PartKind::Head => {
            assert(v[0] == linear(part.key, c.hidden_size as int, c.vocab_size as int, false));
        },
        _ => {},
    }
}

/// A shared expert is needed where it has a width: in the plural where that is stored, in the
/// singular where only that is; where neither is, the layer cannot be made.
pub proof fn shared_experts_stand_under_either_key(infos: Seq<TensorInfo>, key: Seq<char>, hidden: int, width: i64)
    ensures
        ({
            let v = shared_needs(infos, key, hidden, width);
            let many = has_down(infos, key + ".shared_experts"@);
            let one = has_down(infos, key + ".shared_expert"@);
            &&& width == 0 <==> v.len() == 0
            &&& width != 0 && many ==> asks_mlp(v, key + ".shared_experts"@, hidden, width as int)
            &&& width != 0 && !many && one ==> asks_mlp(v, key + ".shared_expert"@, hidden, width as int)
            &&& width != 0 && !many && !one ==> v[0] == (NeedView::SharedExpert { key })
        }),
{
    let v = shared_needs(infos, key, hidden, width);
    if width != 0 && has_down(infos, key + ".shared_experts"@) {
        assert(v.subrange(0, v.len() as int) =~= v);
        lemma_mlp_stands(v, 0, key + ".shared_experts"@, hidden, width as int);
    } else if width != 0 && has_down(infos, key + ".shared_expert"@) {
        assert(v.subrange(0, v.len() as int) =~= v);
        lemma_mlp_stands(v, 0, key + ".shared_expert"@, hidden, width as int);
    }
}

} // verus!
