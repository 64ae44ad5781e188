//! What a checkpoint's configuration says of the model.
use vstd::prelude::*;
use crate::arith::{divide, quotient};
use crate::json::{
    bool_at, collect_i64, copy_num, get_bool, get_i64, get_list, get_num, get_str, json_read, list_at, member, num_at,
    num_or, number_or, read_json, same_text, text_at, whole, whole_at, wholes, Json, Num,
};

verus! {

/// Which transformer family a checkpoint is.
#[derive(Clone, Copy, PartialEq, Eq, Debug, Structural)]
pub enum ArchKind {
    /// A dense GQA stack without QK-norm or post-norms.
    Llama,
    /// A homogeneous GQA transformer.
    Qwen3,
    /// Qwen3 blocks with a block-sparse expert MLP.
    Qwen3Moe,
    /// NeoX RoPE, optional QK-norm, a sigmoid router with a selection bias, an always-on
    /// shared expert, and leading dense layers.
    Glm4Moe,
    /// The hybrid stack with hyper-connections, sparse attention and n-gram injection.
    Qwen4Exp,
    /// GPT-J RoPE and sandwich norms.
    Glm4,
    /// Gated delta net with gated full attention.
    Qwen35,
}

impl ArchKind {
    /// Per-head RMSNorm on Q and K. This is the default only: a checkpoint may gate it.
    pub open spec fn normed_qk(self) -> bool {
        self == ArchKind::Qwen3 || self == ArchKind::Qwen3Moe || self == ArchKind::Qwen35 || self
            == ArchKind::Qwen4Exp
    }

    /// Whether the stack is a hybrid one.
    pub open spec fn hybrid(self) -> bool {
        self == ArchKind::Qwen35 || self == ArchKind::Qwen4Exp
    }

    /// Per-head RMSNorm on Q and K, fused into the RoPE kernel.
    pub fn has_qk_norm(self) -> (r: bool)
        ensures
            r == self.normed_qk(),
    {
        matches!(self, ArchKind::Qwen3 | ArchKind::Qwen3Moe | ArchKind::Qwen35 | ArchKind::Qwen4Exp)
    }

    /// Sandwich norms: each sublayer's output is normed before its residual add.
    pub fn has_post_norms(self) -> (r: bool)
        ensures
            r == (self == ArchKind::Glm4),
    {
        matches!(self, ArchKind::Glm4)
    }

    /// A hybrid linear-attention stack.
    pub fn is_hybrid(self) -> (r: bool)
        ensures
            r == self.hybrid(),
    {
        matches!(self, ArchKind::Qwen35 | ArchKind::Qwen4Exp)
    }

    /// Whether the family carries the Qwen3-VL vision tower.
    pub fn has_qwen3_vl_tower(self) -> (r: bool)
        ensures
            r == (self == ArchKind::Qwen35 || self == ArchKind::Qwen4Exp),
    {
        matches!(self, ArchKind::Qwen35 | ArchKind::Qwen4Exp)
    }
}

/// The attention of a layer of the hybrid stack.
#[derive(Clone, Copy, PartialEq, Eq, Debug, Structural)]
pub enum LayerKind {
    FullAttention,
    LinearAttention,
}

/// How the router turns hidden states into pairs of expert and weight.
#[derive(Clone, Copy, PartialEq, Eq, Debug, Structural)]
pub enum RouterKind {
    /// Top-k over the raw logits, softmax over the selected ones.
    Std,
    /// Sigmoid scores: selection ranks by the biased score, the weights use the unbiased
    /// one, normalized over the selected set and scaled.
    Dots,
}

/// The nonlinearity on the output gate of the gated delta net.
#[derive(Clone, Copy, PartialEq, Eq, Debug, Structural)]
pub enum GateAct {
    Silu,
    Sigmoid,
}

/// How RoPE pairs the dimensions that it rotates.
#[derive(Clone, Copy, PartialEq, Eq, Debug, Structural)]
pub enum RopeStyle {
    /// Halves.
    Neox,
    /// Adjacent pairs.
    Gptj,
}

/// The dimensions of a block-sparse MLP.
pub struct MoeParams {
    pub num_experts: i64,
    pub num_experts_per_tok: i64,
    /// The width of one expert.
    pub moe_intermediate_size: i64,
    /// Whether the routing weights of the selected experts sum to one.
    pub norm_topk_prob: bool,
    /// Only every so many layers is sparse.
    pub decoder_sparse_step: i64,
    /// Layers that stay dense despite the schedule.
    pub mlp_only_layers: Vec<i64>,
    pub router: RouterKind,
    /// So many leading layers are dense.
    pub first_k_dense_replace: i64,
    /// The scale of the routed weights after normalization.
    pub routed_scaling_factor: Num,
    /// The width of the always-on shared expert, or 0 where there is none.
    pub shared_expert_intermediate_size: i64,
    /// Whether the shared expert's output passes through a sigmoid gate.
    pub shared_gate: bool,
}

impl MoeParams {
    /// Whether layer `idx` uses experts.
    pub open spec fn sparse(&self, idx: int) -> bool {
        &&& idx >= self.first_k_dense_replace
        &&& forall|i: int| 0 <= i < self.mlp_only_layers@.len() ==> #[trigger] self.mlp_only_layers@[i] != idx
        &&& self.num_experts > 0
        &&& self.decoder_sparse_step > 0
        &&& (idx + 1) % (self.decoder_sparse_step as int) == 0
    }

    /// Whether layer `idx` uses experts rather than a dense MLP.
    pub fn is_sparse_layer(&self, idx: i64) -> (r: bool)
        requires
            idx < i64::MAX,
        ensures
            r == self.sparse(idx as int),
    {
        if idx < self.first_k_dense_replace || self.num_experts <= 0 || self.decoder_sparse_step <= 0 {
            return false;
        }
        let mut i: usize = 0;
        while i < self.mlp_only_layers.len()
            invariant
                i <= self.mlp_only_layers@.len(),
                forall|j: int| 0 <= j < i ==> #[trigger] self.mlp_only_layers@[j] != idx,
            decreases self.mlp_only_layers@.len() - i,
        {
            if self.mlp_only_layers[i] == idx {
                return false;
            }
            i = i + 1;
        }
        multiple(idx + 1, self.decoder_sparse_step)
    }
}

/// Whether `a` is a multiple of `b`.
fn multiple(a: i64, b: i64) -> (r: bool)
    requires
        b != 0,
    ensures
        r == (a as int % b as int == 0),
{
    let x: u128 = if a >= 0 {
        a as u128
    } else {
        (-(a as i128)) as u128
    };
    let y: u128 = if b >= 0 {
        b as u128
    } else {
        (-(b as i128)) as u128
    };
    proof {
        lemma_multiple(a as int, b as int);
    }
    x % y == 0
}

proof fn lemma_multiple(a: int, b: int)
    requires
        b != 0,
    ensures
        (a % b == 0) == ((if a >= 0 {
            a
        } else {
            -a
        }) % (if b >= 0 {
            b
        } else {
            -b
        }) == 0),
{
    let y = if b >= 0 {
        b
    } else {
        -b
    };
    assert((a % b == 0) == (a % y == 0)) by (nonlinear_arith)
        requires
            b != 0,
            y == b || y == -b,
            y > 0,
    ;
    vstd::arithmetic::div_mod::lemma_fundamental_div_mod(a, y);
    vstd::arithmetic::div_mod::lemma_fundamental_div_mod(-a, y);
    if a % y == 0 {
        vstd::arithmetic::div_mod::lemma_mod_multiples_basic(-(a / y), y);
        assert(-(a / y) * y == -(y * (a / y))) by (nonlinear_arith);
    }
    if -a % y == 0 {
        vstd::arithmetic::div_mod::lemma_mod_multiples_basic(-(-a / y), y);
        assert(-(-a / y) * y == -(y * (-a / y))) by (nonlinear_arith);
    }
}

/// The dimensions of the gated delta net.
#[derive(Clone, Copy, Debug)]
pub struct GdnParams {
    pub conv_kernel_size: i64,
    pub num_k_heads: i64,
    pub num_v_heads: i64,
    pub k_head_dim: i64,
    pub v_head_dim: i64,
}

impl GdnParams {
    /// Whether the widths can be counted.
    pub open spec fn countable(&self) -> bool {
        &&& i64::MIN <= self.num_k_heads * self.k_head_dim <= i64::MAX
        &&& i64::MIN <= 2 * self.num_k_heads <= i64::MAX
        &&& i64::MIN <= 2 * self.num_k_heads * self.k_head_dim <= i64::MAX
        &&& i64::MIN <= self.num_v_heads * self.v_head_dim <= i64::MAX
        &&& i64::MIN <= 2 * self.num_k_heads * self.k_head_dim + self.num_v_heads * self.v_head_dim <= i64::MAX
    }

    /// The feature width of the convolution.
    pub fn fdim_qkv(&self) -> (r: i64)
        requires
            self.countable(),
        ensures
            r == 2 * self.num_k_heads * self.k_head_dim + self.num_v_heads * self.v_head_dim,
    {
        2 * self.num_k_heads * self.k_head_dim + self.num_v_heads * self.v_head_dim
    }

    /// The width of the keys.
    pub fn k_dim(&self) -> (r: i64)
        requires
            self.countable(),
        ensures
            r == self.num_k_heads * self.k_head_dim,
    {
        self.num_k_heads * self.k_head_dim
    }

    /// The width of the values.
    pub fn v_dim(&self) -> (r: i64)
        requires
            self.countable(),
        ensures
            r == self.num_v_heads * self.v_head_dim,
    {
        self.num_v_heads * self.v_head_dim
    }
}

/// What the hybrid stack with hyper-connections adds.
pub struct Qwen4Params {
    /// Parallel residual streams.
    pub hc_mult: i64,
    pub indexer_n_heads: i64,
    pub indexer_head_dim: i64,
    /// Tokens that each query may attend to, before its own tail block.
    pub indexer_budget: i64,
    pub indexer_compress_ratio: i64,
    /// Layers, counted from zero, that carry an injection ahead of the block.
    pub ple_layer_ids: Vec<i64>,
    pub ple_embed_dim: i64,
    pub ple_conv_kernel_size: i64,
    pub ngram_size: i64,
    pub heads_per_ngram: i64,
    /// The id on which the n-gram hashing segments.
    pub ple_eos_token_id: i64,
}

/// The vision tower.
pub struct VisionConfig {
    pub depth: i64,
    pub hidden_size: i64,
    pub intermediate_size: i64,
    pub num_heads: i64,
    pub head_dim: i64,
    pub out_hidden_size: i64,
    pub patch_size: i64,
    pub temporal_patch_size: i64,
    pub spatial_merge_size: i64,
    pub num_position_embeddings: i64,
    /// Blocks whose output is fed back into the first text layers.
    pub deepstack_visual_indexes: Vec<i64>,
    pub image_mean: (Num, Num, Num),
    pub image_std: (Num, Num, Num),
    pub min_pixels: i64,
    pub max_pixels: i64,
}

/// The RoPE settings that a configuration gives.
pub struct RopeSettings {
    pub head_dim: i64,
    pub rope_theta: Num,
    pub rotary_dim: Option<i64>,
    pub partial_rotary_factor: Num,
    pub max_position_embeddings: i64,
    pub original_max_position_embeddings: Option<i64>,
    pub rope_style: RopeStyle,
}

/// What a caller overrides.
pub struct ConfigOverrides {
    /// The context length.
    pub max_seq_len: Option<i64>,
}

/// A model's configuration.
pub struct Config {
    pub arch: String,
    pub arch_kind: ArchKind,
    /// Per-head RMSNorm on Q and K.
    pub qk_norm: bool,
    /// What the decoder's weight names start with.
    pub key_prefix: String,
    pub vocab_size: i64,
    pub hidden_size: i64,
    pub intermediate_size: i64,
    pub num_hidden_layers: i64,
    pub num_q_heads: i64,
    pub num_kv_heads: i64,
    pub head_dim: i64,
    pub rms_norm_eps: Num,
    pub tie_word_embeddings: bool,
    pub bos_token_id: Option<i64>,
    pub eos_token_ids: Vec<i64>,
    pub max_position_embeddings: i64,
    pub rope: RopeSettings,
    /// Whether one is added to every RMSNorm weight.
    pub norm_constant_bias: bool,
    /// Whether full-attention layers carry an output gate.
    pub attn_output_gate: bool,
    /// The attention of each layer.
    pub layer_types: Vec<LayerKind>,
    pub gdn: Option<GdnParams>,
    pub gdn_gate_act: GateAct,
    pub moe: Option<MoeParams>,
    pub qwen4: Option<Qwen4Params>,
    pub vision: Option<VisionConfig>,
    /// The widths of the MRoPE sections.
    pub mrope_section: Option<(i64, i64, i64)>,
    pub vision_start_token_id: i64,
    pub vision_end_token_id: i64,
    pub image_token_id: i64,
    pub raw: Json,
}

/// Why a configuration is refused.
pub enum ConfigError {
    NoArchitectures,
    NotOneArchitecture,
    UnsupportedArchitecture(String),
    LayerTypesLength,
    UnknownLayerType(Option<String>),
    NoExpertCount,
    NoExpertsPerToken,
    NoExpertWidth,
    UnnormalizedRouting,
    NoIndexerHeads,
    NoIndexerHeadDim,
    NoIndexerBudget,
}

/// Why there is no configuration.
pub enum ReadError {
    /// The file holds no JSON.
    NotJson,
    /// A value that every model has is missing, or is not of its kind.
    Unreadable,
    /// The model is refused.
    Refused(ConfigError),
}

/// A group ratio that the attention kernels are made for.
pub open spec fn supported_ratio(head_dim: int, g: int) -> bool {
    1 <= g <= 8 && (head_dim == 128 || head_dim == 256 || g == 1 || g == 2 || g == 4 || g == 8)
}

/// Whether repeating `kv` heads so often gives a supported ratio.
pub open spec fn fits(head_dim: int, q: int, kv: int) -> bool {
    q % kv == 0 && supported_ratio(head_dim, quotient(q, kv))
}

/// Whether the search for a number of repeats ends at `r`.
pub open spec fn search_ends(head_dim: int, q: int, kv: int, r: int) -> bool {
    fits(head_dim, q, kv * r) || (r >= 2 && kv * r >= q)
}

/// Whether `r` is the first number of repeats at which the search ends.
pub open spec fn first_end(head_dim: int, q: int, kv: int, r: int) -> bool {
    &&& r >= 1
    &&& search_ends(head_dim, q, kv, r)
    &&& forall|k: int| 1 <= k < r ==> !#[trigger] search_ends(head_dim, q, kv, k)
}

impl Config {
    /// How many KV heads the paged-attention kernels see, and how often each head is
    /// repeated for that. The kernels are made for certain ratios of query heads to KV heads;
    /// where the checkpoint's is none of them, the KV heads are repeated.
    pub fn kv_heads_eff(&self) -> (r: (i64, i64))
        requires
            self.num_kv_heads >= 1,
            self.num_q_heads + self.num_kv_heads <= i64::MAX,
            2 * self.num_kv_heads <= i64::MAX,
        ensures
            exists|k: int|
                #[trigger] first_end(self.head_dim as int, self.num_q_heads as int, self.num_kv_heads as int, k)
                    && (r.0 as int, r.1 as int) == if fits(
                    self.head_dim as int,
                    self.num_q_heads as int,
                    self.num_kv_heads * k,
                ) {
                    (self.num_kv_heads * k, k)
                } else {
                    (self.num_q_heads as int, quotient(self.num_q_heads as int, self.num_kv_heads as int))
                },
    {
        let q = self.num_q_heads;
        let kv = self.num_kv_heads;
        if heads_fit(self.head_dim, q, kv) {
            assert(kv * 1 == kv);
            assert(first_end(self.head_dim as int, q as int, kv as int, 1));
            return (kv, 1);
        }
        assert(kv * 1 == kv);
        assert(!search_ends(self.head_dim as int, q as int, kv as int, 1));
        let mut r: i64 = 2;
        let mut n: i64 = kv + kv;
        loop
            invariant
                q == self.num_q_heads,
                kv == self.num_kv_heads,
                kv >= 1,
                q + kv <= i64::MAX,
                2 * kv <= i64::MAX,
                r >= 2,
                n == kv * r,
                n >= r,
                r == 2 || n < q + kv,
                forall|k: int| 1 <= k < r ==> !#[trigger] search_ends(self.head_dim as int, q as int, kv as int, k),
            decreases q + kv - n + kv,
        {
            if heads_fit(self.head_dim, q, n) {
                assert(first_end(self.head_dim as int, q as int, kv as int, r as int));
                return (n, r);
            }
            if n >= q {
                assert(first_end(self.head_dim as int, q as int, kv as int, r as int));
                return (q, divide(q, kv));
            }
            assert(kv * (r + 1) == kv * r + kv) by (nonlinear_arith);
            r = r + 1;
            n = n + kv;
        }
    }
}

fn heads_fit(head_dim: i64, q: i64, kv: i64) -> (r: bool)
    requires
        kv >= 1,
    ensures
        r == fits(head_dim as int, q as int, kv as int),
{
    if !multiple(q, kv) {
        return false;
    }
    let g = divide(q, kv);
    1 <= g && g <= 8 && (head_dim == 128 || head_dim == 256 || g == 1 || g == 2 || g == 4 || g == 8)
}

/// Where the KV heads divide the query heads, the kernels see a supported ratio, and each
/// KV head is repeated a whole number of times.
pub proof fn repeated_heads_fit(head_dim: int, q: int, kv: int, k: int)
    requires
        q >= 1,
        kv >= 1,
        q % kv == 0,
        first_end(head_dim, q, kv, k),
    ensures
        fits(head_dim, q, kv * k),
        kv * k <= q,
{
    let m = q / kv;
    vstd::arithmetic::div_mod::lemma_fundamental_div_mod(q, kv);
    assert(q == kv * m);
    assert(m >= 1) by (nonlinear_arith)
        requires
            q == kv * m,
            q >= 1,
            kv >= 1,
    ;
    assert(quotient(q, q) == 1) by {
        vstd::arithmetic::div_mod::lemma_div_by_self(q);
    }
    assert(q % q == 0) by {
        vstd::arithmetic::div_mod::lemma_mod_self_0(q);
    }
    assert(fits(head_dim, q, kv * m));
    assert(search_ends(head_dim, q, kv, m));
    assert(k <= m);
    assert(kv * k <= kv * m) by (nonlinear_arith)
        requires
            k <= m,
            kv >= 1,
    ;
    if !fits(head_dim, q, kv * k) {
        assert(kv * k == kv * m);
    }
}

/// The family of an architecture by its name, and what its decoder's weight names start with.
pub open spec fn arch_named(name: Seq<char>) -> Option<(ArchKind, Seq<char>)> {
    if name == "LlamaForCausalLM"@ || name == "MistralForCausalLM"@ || name == "Qwen2ForCausalLM"@ || name
        == "MiMoForCausalLM"@ || name == "SeedOssForCausalLM"@ || name == "IQuestCoderForCausalLM"@ {
        Some((ArchKind::Llama, "model"@))
    } else if name == "Glm4ForCausalLM"@ {
        Some((ArchKind::Glm4, "model"@))
    } else if name == "Qwen3ForCausalLM"@ {
        Some((ArchKind::Qwen3, "model"@))
    } else if name == "Qwen3MoeForCausalLM"@ {
        Some((ArchKind::Qwen3Moe, "model"@))
    } else if name == "Qwen3VLForConditionalGeneration"@ {
        Some((ArchKind::Qwen3, "model.language_model"@))
    } else if name == "Qwen3VLMoeForConditionalGeneration"@ {
        Some((ArchKind::Qwen3Moe, "model.language_model"@))
    } else if name == "Qwen4ExpForConditionalGeneration"@ {
        Some((ArchKind::Qwen4Exp, "model.language_model"@))
    } else if name == "Glm4MoeForCausalLM"@ || name == "SolarOpenForCausalLM"@ {
        Some((ArchKind::Glm4Moe, "model"@))
    } else if name == "DFlash2DraftModel"@ {
        Some((ArchKind::Qwen3, ""@))
    } else if name == "Qwen3_5ForConditionalGeneration"@ || name == "Qwen3_5ForCausalLM"@ {
        Some((ArchKind::Qwen35, "model.language_model"@))
    } else {
        None
    }
}

/// What a refusal says.
pub enum Refusal {
    NoArchitectures,
    NotOneArchitecture,
    UnsupportedArchitecture(Seq<char>),
    LayerTypesLength,
    UnknownLayerType(Option<Seq<char>>),
    NoExpertCount,
    NoExpertsPerToken,
    NoExpertWidth,
    UnnormalizedRouting,
    NoIndexerHeads,
    NoIndexerHeadDim,
    NoIndexerBudget,
}

impl ConfigError {
    /// What the error says.
    pub open spec fn says(&self) -> Refusal {
        match *self {
            ConfigError::NoArchitectures => Refusal::NoArchitectures,
            ConfigError::NotOneArchitecture => Refusal::NotOneArchitecture,
            ConfigError::UnsupportedArchitecture(s) => Refusal::UnsupportedArchitecture(s@),
            ConfigError::LayerTypesLength => Refusal::LayerTypesLength,
            ConfigError::UnknownLayerType(t) => Refusal::UnknownLayerType(
                match t {
                    Some(s) => Some(s@),
                    None => None,
                },
            ),
            ConfigError::NoExpertCount => Refusal::NoExpertCount,
            ConfigError::NoExpertsPerToken => Refusal::NoExpertsPerToken,
            ConfigError::NoExpertWidth => Refusal::NoExpertWidth,
            ConfigError::UnnormalizedRouting => Refusal::UnnormalizedRouting,
            ConfigError::NoIndexerHeads => Refusal::NoIndexerHeads,
            ConfigError::NoIndexerHeadDim => Refusal::NoIndexerHeadDim,
            ConfigError::NoIndexerBudget => Refusal::NoIndexerBudget,
        }
    }
}

/// A value where there is one, else the default.
pub open spec fn or_default(v: Option<i64>, default: i64) -> i64 {
    match v {
        Some(x) => x,
        None => default,
    }
}

/// The first value where there is one, else the second.
pub open spec fn or_else(a: Option<i64>, b: Option<i64>) -> Option<i64> {
    match a {
        Some(x) => Some(x),
        None => b,
    }
}

/// The decoder's configuration: under `text_config`, or at the root.
pub open spec fn text_config(raw: Json) -> Json {
    match member(raw, "text_config"@) {
        Some(t) => t,
        None => raw,
    }
}

/// A value as a text.
pub open spec fn text_of(v: Json) -> Option<Seq<char>> {
    match v {
        Json::Text(t) => Some(t@),
        _ => None,
    }
}

/// The name of the only architecture.
pub open spec fn arch_name(raw: Json) -> Seq<char> {
    text_of(list_at(raw, "architectures"@)->0[0])->0
}

/// The family of the only architecture.
pub open spec fn kind_of(raw: Json) -> ArchKind {
    match arch_named(arch_name(raw)) {
        Some((kind, prefix)) => kind,
        None => ArchKind::Llama,
    }
}

/// What the weight names of the only architecture's decoder start with.
pub open spec fn prefix_of(raw: Json) -> Seq<char> {
    match arch_named(arch_name(raw)) {
        Some((kind, prefix)) => prefix,
        None => seq![],
    }
}

/// Why the architecture is refused.
pub open spec fn arch_refusal(raw: Json) -> Option<Refusal> {
    match list_at(raw, "architectures"@) {
        None => Some(Refusal::NoArchitectures),
        Some(a) => if a.len() != 1 {
            Some(Refusal::NotOneArchitecture)
        } else if arch_named(arch_name(raw)) is None {
            Some(Refusal::UnsupportedArchitecture(arch_name(raw)))
        } else {
            None
        },
    }
}

/// The attention that a layer type names.
pub open spec fn layer_kind(v: Json) -> Option<LayerKind> {
    match text_of(v) {
        Some(t) => if t == "full_attention"@ {
            Some(LayerKind::FullAttention)
        } else if t == "linear_attention"@ {
            Some(LayerKind::LinearAttention)
        } else {
            None
        },
        None => None,
    }
}

/// Whether `i` is the first layer type that names no attention.
pub open spec fn first_bad(a: Seq<Json>, i: int) -> bool {
    &&& 0 <= i < a.len()
    &&& layer_kind(a[i]) is None
    &&& forall|j: int| 0 <= j < i ==> layer_kind(#[trigger] a[j]) is Some
}

/// Why the layer types are refused.
pub open spec fn layers_refusal(tc: Json, kind: ArchKind, layers: i64) -> Option<Refusal> {
    if !kind.hybrid() {
        None
    } else {
        match list_at(tc, "layer_types"@) {
            None => None,
            Some(a) => if a.len() != layers {
                Some(Refusal::LayerTypesLength)
            } else if exists|i: int| first_bad(a, i) {
                let i = choose|i: int| first_bad(a, i);
                Some(Refusal::UnknownLayerType(text_of(a[i])))
            } else {
                None
            },
        }
    }
}

/// The number of experts.
pub open spec fn expert_count(tc: Json) -> Option<i64> {
    or_else(whole_at(tc, "num_experts"@), whole_at(tc, "num_local_experts"@))
}

/// Why the experts are refused.
pub open spec fn moe_refusal(tc: Json, kind: ArchKind) -> Option<Refusal> {
    match kind {
        ArchKind::Glm4Moe => if whole_at(tc, "moe_intermediate_size"@) is None {
            Some(Refusal::NoExpertWidth)
        } else {
            None
        },
        ArchKind::Qwen3Moe => if expert_count(tc) is None {
            Some(Refusal::NoExpertCount)
        } else if whole_at(tc, "num_experts_per_tok"@) is None {
            Some(Refusal::NoExpertsPerToken)
        } else if whole_at(tc, "moe_intermediate_size"@) is None {
            Some(Refusal::NoExpertWidth)
        } else if bool_at(tc, "norm_topk_prob"@) == Some(false) {
            Some(Refusal::UnnormalizedRouting)
        } else {
            None
        },
        ArchKind::Qwen4Exp => if whole_at(tc, "moe_intermediate_size"@) is None {
            Some(Refusal::NoExpertWidth)
        } else if expert_count(tc) is None {
            Some(Refusal::NoExpertCount)
        } else if whole_at(tc, "num_experts_per_tok"@) is None {
            Some(Refusal::NoExpertsPerToken)
        } else {
            None
        },
        _ => None,
    }
}

/// Why the indexer is refused.
pub open spec fn indexer_refusal(tc: Json, kind: ArchKind) -> Option<Refusal> {
    if kind != ArchKind::Qwen4Exp {
        None
    } else if whole_at(tc, "indexer_n_heads"@) is None {
        Some(Refusal::NoIndexerHeads)
    } else if whole_at(tc, "indexer_head_dim"@) is None {
        Some(Refusal::NoIndexerHeadDim)
    } else if whole_at(tc, "indexer_budget"@) is None {
        Some(Refusal::NoIndexerBudget)
    } else {
        None
    }
}

/// The number of layers.
pub open spec fn layer_count(tc: Json) -> i64 {
    whole_at(tc, "num_hidden_layers"@)->0
}

/// Why a configuration is refused.
pub open spec fn refusal(raw: Json) -> Option<Refusal> {
    let tc = text_config(raw);
    let kind = kind_of(raw);
    match arch_refusal(raw) {
        Some(r) => Some(r),
        None => match layers_refusal(tc, kind, layer_count(tc)) {
            Some(r) => Some(r),
            None => match moe_refusal(tc, kind) {
                Some(r) => Some(r),
                None => indexer_refusal(tc, kind),
            },
        },
    }
}

/// The stop ids' source: the decoder's configuration, or the root.
pub open spec fn eos_source(raw: Json) -> Option<Json> {
    match member(text_config(raw), "eos_token_id"@) {
        Some(v) => Some(v),
        None => member(raw, "eos_token_id"@),
    }
}

/// The stop ids.
pub open spec fn eos_ids(raw: Json) -> Seq<i64> {
    match eos_source(raw) {
        Some(Json::List(a)) => wholes(a@),
        Some(Json::Number(n)) => seq![whole(Json::Number(n))->0],
        _ => seq![],
    }
}

/// The head dimension.
pub open spec fn head_dim_of(tc: Json) -> int {
    match whole_at(tc, "head_dim"@) {
        Some(d) => d as int,
        None => quotient(
            whole_at(tc, "hidden_size"@)->0 as int,
            whole_at(tc, "num_attention_heads"@)->0 as int,
        ),
    }
}

/// Whether a quotient can be taken.
pub open spec fn divisible(a: i64, b: i64) -> bool {
    b != 0 && (a != i64::MIN || b != -1)
}

/// What the decoder's part must hold.
pub open spec fn has_decoder(raw: Json, kind: ArchKind) -> bool {
    let tc = text_config(raw);
    &&& whole_at(tc, "hidden_size"@) is Some
    &&& whole_at(tc, "num_attention_heads"@) is Some
    &&& whole_at(tc, "head_dim"@) is None ==> divisible(
        whole_at(tc, "hidden_size"@)->0,
        whole_at(tc, "num_attention_heads"@)->0,
    )
    &&& whole_at(tc, "num_hidden_layers"@) is Some
    &&& !kind.hybrid() ==> layer_count(tc) >= 0
    &&& kind.hybrid() && list_at(tc, "layer_types"@) is None && layer_count(tc) > 0 ==> or_default(
        whole_at(tc, "full_attention_interval"@),
        4,
    ) != 0
    &&& (eos_source(raw) matches Some(Json::Number(n)) ==> whole(Json::Number(n)) is Some)
    &&& num_at(tc, "rms_norm_eps"@) is Some
    &&& kind == ArchKind::Glm4Moe && whole_at(tc, "moe_intermediate_size"@) is Some ==> i64::MIN <= whole_at(
        tc,
        "moe_intermediate_size"@,
    )->0 * or_default(whole_at(tc, "n_shared_experts"@), 1) <= i64::MAX
    &&& kind == ArchKind::Qwen4Exp ==> forall|i: int|
        0 <= i < ple_ids(tc).len() ==> #[trigger] ple_ids(tc)[i] > i64::MIN
}

/// The injection layers, counted from one.
pub open spec fn ple_ids(tc: Json) -> Seq<i64> {
    match list_at(tc, "ple_layer_ids"@) {
        Some(a) => wholes(a),
        None => seq![],
    }
}

/// Whether a list of three, where there is one, holds numbers.
pub open spec fn triple_ok(prep: Json, key: Seq<char>) -> bool {
    match list_at(prep, key) {
        Some(a) => a.len() == 3 ==> a[0] is Number && a[1] is Number && a[2] is Number,
        None => true,
    }
}

/// Whether the checkpoint has a vision tower.
pub open spec fn has_tower(raw: Json) -> bool {
    match member(raw, "vision_config"@) {
        Some(vc) => whole_at(vc, "depth"@) is Some,
        None => false,
    }
}

/// What the rest of a configuration must hold.
pub open spec fn has_rest(raw: Json, prep: Json) -> bool {
    let tc = text_config(raw);
    let vc = member(raw, "vision_config"@)->0;
    &&& or_else(whole_at(tc, "vocab_size"@), whole_at(raw, "vocab_size"@)) is Some
    &&& whole_at(tc, "intermediate_size"@) is Some
    &&& has_tower(raw) ==> {
        &&& whole_at(vc, "hidden_size"@) is Some
        &&& whole_at(vc, "num_heads"@) is Some
        &&& divisible(whole_at(vc, "hidden_size"@)->0, whole_at(vc, "num_heads"@)->0)
        &&& whole_at(vc, "intermediate_size"@) is Some
        &&& triple_ok(prep, "image_mean"@)
        &&& triple_ok(prep, "image_std"@)
    }
}

/// Whether a configuration can be read: what is needed is there, up to where it is refused.
pub open spec fn readable(raw: Json, prep: Json) -> bool {
    &&& match list_at(raw, "architectures"@) {
        Some(a) => a.len() == 1 ==> a[0] is Text,
        None => true,
    }
    &&& arch_refusal(raw) is None ==> has_decoder(raw, kind_of(raw))
    &&& refusal(raw) is None ==> has_rest(raw, prep)
}

/// The RoPE parameters.
pub open spec fn rope_params(tc: Json) -> Option<Json> {
    match member(tc, "rope_parameters"@) {
        Some(p) => Some(p),
        None => member(tc, "rope_scaling"@),
    }
}

/// A number among the RoPE parameters, or in the decoder's configuration.
pub open spec fn rope_num(tc: Json, key: Seq<char>) -> Option<Num> {
    let inner = match rope_params(tc) {
        Some(p) => num_at(p, key),
        None => None,
    };
    match inner {
        Some(n) => Some(n),
        None => num_at(tc, key),
    }
}

/// The RoPE parameters, where they select a scaling of their own.
pub open spec fn rope_scaling_of(tc: Json) -> Option<Json> {
    match rope_params(tc) {
        Some(p) => match text_at(p, "rope_type"@) {
            Some(t) => if t == "default"@ || t == "mrope"@ {
                None
            } else {
                Some(p)
            },
            None => None,
        },
        None => None,
    }
}

/// The attention of layer `i`, where no list gives it.
pub open spec fn scheduled(interval: int, i: int) -> LayerKind {
    if (i + 1) % interval == 0 {
        LayerKind::FullAttention
    } else {
        LayerKind::LinearAttention
    }
}

/// The attention of each layer.
pub open spec fn layers_of(tc: Json, kind: ArchKind) -> Seq<LayerKind> {
    let n = if layer_count(tc) >= 0 {
        layer_count(tc) as nat
    } else {
        0
    };
    if !kind.hybrid() {
        Seq::new(n, |i: int| LayerKind::FullAttention)
    } else {
        match list_at(tc, "layer_types"@) {
            Some(a) => Seq::new(a.len(), |i: int| layer_kind(a[i])->0),
            None => Seq::new(
                n,
                |i: int| scheduled(or_default(whole_at(tc, "full_attention_interval"@), 4) as int, i),
            ),
        }
    }
}

/// The gated delta net of a hybrid stack.
pub open spec fn gdn_of(tc: Json, kind: ArchKind) -> Option<GdnParams> {
    if kind.hybrid() {
        Some(
            GdnParams {
                conv_kernel_size: or_default(whole_at(tc, "linear_conv_kernel_dim"@), 4),
                num_k_heads: or_default(whole_at(tc, "linear_num_key_heads"@), 16),
                num_v_heads: or_default(whole_at(tc, "linear_num_value_heads"@), 32),
                k_head_dim: or_default(whole_at(tc, "linear_key_head_dim"@), 128),
                v_head_dim: or_default(whole_at(tc, "linear_value_head_dim"@), 128),
            },
        )
    } else {
        None
    }
}

/// Whether `m` is the block-sparse MLP of a checkpoint.
pub open spec fn moe_is(m: Option<MoeParams>, tc: Json, kind: ArchKind) -> bool {
    let width = whole_at(tc, "moe_intermediate_size"@)->0;
    match kind {
        ArchKind::Glm4Moe => m matches Some(p) && {
            &&& p.num_experts == or_default(whole_at(tc, "n_routed_experts"@), 128)
            &&& p.num_experts_per_tok == or_default(whole_at(tc, "num_experts_per_tok"@), 8)
            &&& p.moe_intermediate_size == width
            &&& p.norm_topk_prob
            &&& p.decoder_sparse_step == 1
            &&& p.mlp_only_layers@.len() == 0
            &&& p.router == RouterKind::Dots
            &&& p.first_k_dense_replace == or_default(whole_at(tc, "first_k_dense_replace"@), 3)
            &&& num_or(p.routed_scaling_factor, num_at(tc, "routed_scaling_factor"@), "2.5"@)
            &&& p.shared_expert_intermediate_size == width * or_default(whole_at(tc, "n_shared_experts"@), 1)
            &&& !p.shared_gate
        },
        ArchKind::Qwen3Moe => m matches Some(p) && {
            &&& p.num_experts == expert_count(tc)->0
            &&& p.num_experts_per_tok == whole_at(tc, "num_experts_per_tok"@)->0
            &&& p.moe_intermediate_size == width
            &&& p.norm_topk_prob
            &&& p.decoder_sparse_step == or_default(whole_at(tc, "decoder_sparse_step"@), 1)
            &&& p.mlp_only_layers@ == match list_at(tc, "mlp_only_layers"@) {
                Some(a) => wholes(a),
                None => seq![],
            }
            &&& p.router == RouterKind::Std
            &&& p.first_k_dense_replace == 0
            &&& num_or(p.routed_scaling_factor, None, "1.0"@)
            &&& p.shared_expert_intermediate_size == 0
            &&& !p.shared_gate
        },
        ArchKind::Qwen4Exp => m matches Some(p) && {
            &&& p.num_experts == expert_count(tc)->0
            &&& p.num_experts_per_tok == whole_at(tc, "num_experts_per_tok"@)->0
            &&& p.moe_intermediate_size == width
            &&& p.norm_topk_prob
            &&& p.decoder_sparse_step == 1
            &&& p.mlp_only_layers@.len() == 0
            &&& p.router == RouterKind::Std
            &&& p.first_k_dense_replace == 0
            &&& num_or(p.routed_scaling_factor, None, "1.0"@)
            &&& p.shared_expert_intermediate_size == or_default(
                whole_at(tc, "shared_expert_intermediate_size"@),
                width,
            )
            &&& p.shared_gate
        },
        _ => m is None,
    }
}

/// Whether `q` is what the stack with hyper-connections adds.
pub open spec fn qwen4_is(q: Option<Qwen4Params>, tc: Json, kind: ArchKind, eos: Seq<i64>) -> bool {
    if kind != ArchKind::Qwen4Exp {
        q is None
    } else {
        q matches Some(p) && {
            &&& p.hc_mult == or_default(whole_at(tc, "hc_count"@), 4)
            &&& p.indexer_n_heads == whole_at(tc, "indexer_n_heads"@)->0
            &&& p.indexer_head_dim == whole_at(tc, "indexer_head_dim"@)->0
            &&& p.indexer_budget == whole_at(tc, "indexer_budget"@)->0
            &&& p.indexer_compress_ratio == or_default(whole_at(tc, "indexer_compress_ratio"@), 4)
            &&& p.ple_layer_ids@ == Seq::new(ple_ids(tc).len(), |i: int| (ple_ids(tc)[i] - 1) as i64)
            &&& p.ple_embed_dim == or_default(whole_at(tc, "ple_embed_dim"@), 0)
            &&& p.ple_conv_kernel_size == or_default(whole_at(tc, "ple_conv_kernel_size"@), 4)
            &&& p.ngram_size == or_default(whole_at(tc, "ngram_size"@), 0)
            &&& p.heads_per_ngram == or_default(whole_at(tc, "heads_per_ngram"@), 0)
            &&& p.ple_eos_token_id == or_default(
                or_else(
                    whole_at(tc, "eos_token_id"@),
                    if eos.len() > 0 {
                        Some(eos[0])
                    } else {
                        None
                    },
                ),
                0,
            )
        }
    }
}

/// Whether `t` is a list of three numbers, or three times the default.
pub open spec fn triple_is(t: (Num, Num, Num), prep: Json, key: Seq<char>, default: Seq<char>) -> bool {
    let given = match list_at(prep, key) {
        Some(a) => if a.len() == 3 {
            Some(a)
        } else {
            None
        },
        None => None,
    };
    match given {
        Some(a) => Json::Number(t.0) == a[0] && Json::Number(t.1) == a[1] && Json::Number(t.2) == a[2],
        None => num_or(t.0, None, default) && num_or(t.1, None, default) && num_or(t.2, None, default),
    }
}

/// The member `key` of the preprocessor's `size`.
pub open spec fn size_at(prep: Json, key: Seq<char>) -> Option<i64> {
    match member(prep, "size"@) {
        Some(s) => whole_at(s, key),
        None => None,
    }
}

/// Whether `v` is the vision tower of a checkpoint.
pub open spec fn vision_is(v: Option<VisionConfig>, raw: Json, prep: Json) -> bool {
    let vc = member(raw, "vision_config"@)->0;
    if !has_tower(raw) {
        v is None
    } else {
        v matches Some(t) && {
            &&& t.depth == whole_at(vc, "depth"@)->0
            &&& t.hidden_size == whole_at(vc, "hidden_size"@)->0
            &&& t.intermediate_size == whole_at(vc, "intermediate_size"@)->0
            &&& t.num_heads == whole_at(vc, "num_heads"@)->0
            &&& t.head_dim == quotient(t.hidden_size as int, t.num_heads as int)
            &&& t.out_hidden_size == or_default(
                whole_at(vc, "out_hidden_size"@),
                whole_at(text_config(raw), "hidden_size"@)->0,
            )
            &&& t.patch_size == or_default(whole_at(vc, "patch_size"@), 16)
            &&& t.temporal_patch_size == or_default(whole_at(vc, "temporal_patch_size"@), 2)
            &&& t.spatial_merge_size == or_default(whole_at(vc, "spatial_merge_size"@), 2)
            &&& t.num_position_embeddings == or_default(whole_at(vc, "num_position_embeddings"@), 2304)
            &&& t.deepstack_visual_indexes@ == match list_at(vc, "deepstack_visual_indexes"@) {
                Some(a) => wholes(a),
                None => seq![],
            }
            &&& triple_is(t.image_mean, prep, "image_mean"@, "0.5"@)
            &&& triple_is(t.image_std, prep, "image_std"@, "0.5"@)
            &&& t.min_pixels == or_default(size_at(prep, "shortest_edge"@), 3136)
            &&& t.max_pixels == or_default(size_at(prep, "longest_edge"@), 12845056)
        }
    }
}

/// The widths of the MRoPE sections.
pub open spec fn mrope_of(tc: Json) -> Option<(i64, i64, i64)> {
    match rope_params(tc) {
        Some(p) => match list_at(p, "mrope_section"@) {
            Some(a) => if a.len() == 3 {
                Some((or_default(whole(a[0]), 0), or_default(whole(a[1]), 0), or_default(whole(a[2]), 0)))
            } else {
                None
            },
            None => None,
        },
        None => None,
    }
}

/// The context length: the override where it is positive, else the checkpoint's.
pub open spec fn context_length(tc: Json, over: Option<i64>) -> i64 {
    match over {
        Some(m) => if m > 0 {
            m
        } else {
            or_default(whole_at(tc, "max_position_embeddings"@), 8192)
        },
        None => or_default(whole_at(tc, "max_position_embeddings"@), 8192),
    }
}

/// Whether the RoPE settings are those of a checkpoint.
pub open spec fn rope_is(r: RopeSettings, tc: Json, kind: ArchKind, over: Option<i64>) -> bool {
    &&& r.head_dim == head_dim_of(tc)
    &&& num_or(r.rope_theta, rope_num(tc, "rope_theta"@), "10000.0"@)
    &&& r.rotary_dim == whole_at(tc, "rotary_dim"@)
    &&& num_or(r.partial_rotary_factor, rope_num(tc, "partial_rotary_factor"@), "1.0"@)
    &&& r.max_position_embeddings == context_length(tc, over)
    &&& r.original_max_position_embeddings == whole_at(tc, "original_max_position_embeddings"@)
    &&& r.rope_style == if kind == ArchKind::Glm4 {
        RopeStyle::Gptj
    } else {
        RopeStyle::Neox
    }
}

/// Whether `c` is what a configuration says.
pub open spec fn config_is(c: Config, raw: Json, prep: Json, over: Option<i64>) -> bool {
    let tc = text_config(raw);
    let kind = kind_of(raw);
    &&& c.arch@ == arch_name(raw)
    &&& c.arch_kind == kind
    &&& c.qk_norm == if kind == ArchKind::Glm4Moe {
        bool_at(tc, "use_qk_norm"@) == Some(true)
    } else {
        kind.normed_qk()
    }
    &&& c.key_prefix@ == prefix_of(raw)
    &&& c.vocab_size == or_else(whole_at(tc, "vocab_size"@), whole_at(raw, "vocab_size"@))->0
    &&& c.hidden_size == whole_at(tc, "hidden_size"@)->0
    &&& c.intermediate_size == whole_at(tc, "intermediate_size"@)->0
    &&& c.num_hidden_layers == layer_count(tc)
    &&& c.num_q_heads == whole_at(tc, "num_attention_heads"@)->0
    &&& c.num_kv_heads == or_default(whole_at(tc, "num_key_value_heads"@), c.num_q_heads)
    &&& c.head_dim == head_dim_of(tc)
    &&& c.rms_norm_eps == num_at(tc, "rms_norm_eps"@)->0
    &&& c.tie_word_embeddings == match bool_at(raw, "tie_word_embeddings"@) {
        Some(b) => b,
        None => bool_at(tc, "tie_word_embeddings"@) == Some(true),
    }
    &&& c.bos_token_id == or_else(whole_at(tc, "bos_token_id"@), whole_at(raw, "bos_token_id"@))
    &&& c.eos_token_ids@ == eos_ids(raw)
    &&& c.max_position_embeddings == context_length(tc, over)
    &&& rope_is(c.rope, tc, kind, over)
    &&& c.norm_constant_bias == kind.hybrid()
    &&& c.attn_output_gate == (kind.hybrid() && bool_at(tc, "attn_output_gate"@) == Some(true))
    &&& c.layer_types@ == layers_of(tc, kind)
    &&& c.gdn == gdn_of(tc, kind)
    &&& c.gdn_gate_act == if text_at(tc, "output_gate_type"@) == Some("sigmoid"@) {
        GateAct::Sigmoid
    } else {
        GateAct::Silu
    }
    &&& moe_is(c.moe, tc, kind)
    &&& qwen4_is(c.qwen4, tc, kind, eos_ids(raw))
    &&& vision_is(c.vision, raw, prep)
    &&& c.mrope_section == mrope_of(tc)
    &&& c.vision_start_token_id == or_default(whole_at(raw, "vision_start_token_id"@), 151652)
    &&& c.vision_end_token_id == or_default(whole_at(raw, "vision_end_token_id"@), 151653)
    &&& c.image_token_id == or_default(
        or_else(whole_at(raw, "image_token_id"@), whole_at(tc, "image_token_id"@)),
        151655,
    )
    &&& c.raw == raw
}

fn find_arch(name: &str) -> (r: Option<(ArchKind, String)>)
    ensures
        match r {
            Some((kind, prefix)) => arch_named(name@) == Some((kind, prefix@)),
            None => arch_named(name@) is None,
        },
{
    if same_text(name, "LlamaForCausalLM") || same_text(name, "MistralForCausalLM") || same_text(name, "Qwen2ForCausalLM") || same_text(name, "MiMoForCausalLM") || same_text(name, "SeedOssForCausalLM") || same_text(name, "IQuestCoderForCausalLM") {
        Some((ArchKind::Llama, "model".to_owned()))
    } else if same_text(name, "Glm4ForCausalLM") {
        Some((ArchKind::Glm4, "model".to_owned()))
    } else if same_text(name, "Qwen3ForCausalLM") {
        Some((ArchKind::Qwen3, "model".to_owned()))
    } else if same_text(name, "Qwen3MoeForCausalLM") {
        Some((ArchKind::Qwen3Moe, "model".to_owned()))
    } else if same_text(name, "Qwen3VLForConditionalGeneration") {
        Some((ArchKind::Qwen3, "model.language_model".to_owned()))
    } else if same_text(name, "Qwen3VLMoeForConditionalGeneration") {
        Some((ArchKind::Qwen3Moe, "model.language_model".to_owned()))
    } else if same_text(name, "Qwen4ExpForConditionalGeneration") {
        Some((ArchKind::Qwen4Exp, "model.language_model".to_owned()))
    } else if same_text(name, "Glm4MoeForCausalLM") || same_text(name, "SolarOpenForCausalLM") {
        Some((ArchKind::Glm4Moe, "model".to_owned()))
    } else if same_text(name, "DFlash2DraftModel") {
        Some((ArchKind::Qwen3, "".to_owned()))
    } else if same_text(name, "Qwen3_5ForConditionalGeneration") || same_text(name, "Qwen3_5ForCausalLM") {
        Some((ArchKind::Qwen35, "model.language_model".to_owned()))
    } else {
        None
    }
}

fn decoder_config(raw: &Json) -> (r: &Json)
    ensures
        *r == text_config(*raw),
{
    match raw.get("text_config") {
        Some(t) => t,
        None => raw,
    }
}

fn read_or(v: &Json, key: &str, default: i64) -> (r: i64)
    ensures
        r == or_default(whole_at(*v, key@), default),
{
    match get_i64(v, key) {
        Some(x) => x,
        None => default,
    }
}

fn read_either(a: &Json, b: &Json, key: &str) -> (r: Option<i64>)
    ensures
        r == or_else(whole_at(*a, key@), whole_at(*b, key@)),
{
    match get_i64(a, key) {
        Some(x) => Some(x),
        None => get_i64(b, key),
    }
}

fn read_eos(raw: &Json) -> (r: Vec<i64>)
    requires
        eos_source(*raw) matches Some(Json::Number(n)) ==> whole(Json::Number(n)) is Some,
    ensures
        r@ == eos_ids(*raw),
{
    let tc = decoder_config(raw);
    let source = match tc.get("eos_token_id") {
        Some(v) => Some(v),
        None => raw.get("eos_token_id"),
    };
    match source {
        Some(v) => match v {
            Json::List(a) => collect_i64(a),
            Json::Number(_) => {
                let mut r: Vec<i64> = Vec::new();
                match v.as_i64() {
                    Some(x) => {
                        r.push(x);
                    },
                    None => {},
                }
                assert(r@ =~= eos_ids(*raw));
                r
            },
            _ => Vec::new(),
        },
        None => Vec::new(),
    }
}

fn layer_type(v: &Json) -> (r: Option<LayerKind>)
    ensures
        r == layer_kind(*v),
{
    match v {
        Json::Text(t) => if same_text(t.as_str(), "full_attention") {
            Some(LayerKind::FullAttention)
        } else if same_text(t.as_str(), "linear_attention") {
            Some(LayerKind::LinearAttention)
        } else {
            None
        },
        _ => None,
    }
}

fn read_layers(tc: &Json, kind: ArchKind, layers: i64) -> (r: Result<Vec<LayerKind>, ConfigError>)
    requires
        whole_at(*tc, "num_hidden_layers"@) == Some(layers),
        kind.hybrid() && list_at(*tc, "layer_types"@) is None && layers > 0 ==> or_default(
            whole_at(*tc, "full_attention_interval"@),
            4,
        ) != 0,
    ensures
        match r {
            Ok(v) => layers_refusal(*tc, kind, layers) is None && v@ == layers_of(*tc, kind),
            Err(e) => layers_refusal(*tc, kind, layers) == Some(e.says()),
        },
{
    let mut v: Vec<LayerKind> = Vec::new();
    if !kind.is_hybrid() {
        let mut i: i64 = 0;
        while i < layers
            invariant
                0 <= i,
                i <= layers || layers < 0,
                layers < 0 ==> i == 0,
                v@ == Seq::new(i as nat, |j: int| LayerKind::FullAttention),
            decreases layers - i,
        {
            v.push(LayerKind::FullAttention);
            i = i + 1;
            assert(v@ =~= Seq::new(i as nat, |j: int| LayerKind::FullAttention));
        }
        assert(v@ =~= layers_of(*tc, kind));
        return Ok(v);
    }
    match get_list(tc, "layer_types") {
        Some(a) => {
            if a.len() as i128 != layers as i128 {
                return Err(ConfigError::LayerTypesLength);
            }
            let mut i: usize = 0;
            while i < a.len()
                invariant
                    i <= a@.len(),
                    kind.hybrid(),
                    list_at(*tc, "layer_types"@) == Some(a@),
                    a@.len() == layers,
                    v@.len() == i,
                    forall|j: int| 0 <= j < i ==> layer_kind(#[trigger] a@[j]) == Some(v@[j]),
                decreases a@.len() - i,
            {
                match layer_type(&a[i]) {
                    Some(k) => {
                        v.push(k);
                    },
                    None => {
                        proof {
                            assert(first_bad(a@, i as int));
                            let k = choose|k: int| first_bad(a@, k);
                            assert(k == i) by {
                                if k < i {
                                    assert(layer_kind(a@[k]) is Some);
                                }
                                if i < k {
                                    assert(layer_kind(a@[i as int]) is Some);
                                }
                            }
                        }
                        let t = match &a[i] {
                            Json::Text(t) => Some(t.clone()),
                            _ => None,
                        };
                        return Err(ConfigError::UnknownLayerType(t));
                    },
                }
                i = i + 1;
            }
            proof {
                assert forall|k: int| !first_bad(a@, k) by {
                    if first_bad(a@, k) {
                        assert(layer_kind(a@[k]) is Some);
                    }
                }
            }
            assert(v@ =~= layers_of(*tc, kind));
            Ok(v)
        },
        None => {
            let interval = read_or(tc, "full_attention_interval", 4);
            let mut i: i64 = 0;
            while i < layers
                invariant
                    0 <= i,
                    i <= layers || layers < 0,
                    layers < 0 ==> i == 0,
                    layers > 0 ==> interval != 0,
                    v@ == Seq::new(i as nat, |j: int| scheduled(interval as int, j)),
                decreases layers - i,
            {
                if multiple(i + 1, interval) {
                    v.push(LayerKind::FullAttention);
                } else {
                    v.push(LayerKind::LinearAttention);
                }
                i = i + 1;
                assert(v@ =~= Seq::new(i as nat, |j: int| scheduled(interval as int, j)));
            }
            assert(v@ =~= layers_of(*tc, kind));
            Ok(v)
        },
    }
}

fn read_gdn(tc: &Json, kind: ArchKind) -> (r: Option<GdnParams>)
    ensures
        r == gdn_of(*tc, kind),
{
    if !kind.is_hybrid() {
        return None;
    }
    Some(
        GdnParams {
            conv_kernel_size: read_or(tc, "linear_conv_kernel_dim", 4),
            num_k_heads: read_or(tc, "linear_num_key_heads", 16),
            num_v_heads: read_or(tc, "linear_num_value_heads", 32),
            k_head_dim: read_or(tc, "linear_key_head_dim", 128),
            v_head_dim: read_or(tc, "linear_value_head_dim", 128),
        },
    )
}

fn read_experts(tc: &Json) -> (r: Option<i64>)
    ensures
        r == expert_count(*tc),
{
    match get_i64(tc, "num_experts") {
        Some(x) => Some(x),
        None => get_i64(tc, "num_local_experts"),
    }
}

fn read_wholes(v: &Json, key: &str) -> (r: Vec<i64>)
    ensures
        r@ == match list_at(*v, key@) {
            Some(a) => wholes(a),
            None => seq![],
        },
{
    match get_list(v, key) {
        Some(a) => collect_i64(a),
        None => Vec::new(),
    }
}

fn read_moe(tc: &Json, kind: ArchKind) -> (r: Result<Option<MoeParams>, ConfigError>)
    requires
        kind == ArchKind::Glm4Moe && whole_at(*tc, "moe_intermediate_size"@) is Some ==> i64::MIN <= whole_at(
            *tc,
            "moe_intermediate_size"@,
        )->0 * or_default(whole_at(*tc, "n_shared_experts"@), 1) <= i64::MAX,
    ensures
        match r {
            Ok(m) => moe_refusal(*tc, kind) is None && moe_is(m, *tc, kind),
            Err(e) => moe_refusal(*tc, kind) == Some(e.says()),
        },
{
    match kind {
        ArchKind::Glm4Moe => {
            let width: i64 = match get_i64(tc, "moe_intermediate_size") {
                Some(w) => w,
                None => {
                    return Err(ConfigError::NoExpertWidth);
                },
            };
            let shared = read_or(tc, "n_shared_experts", 1);
            Ok(
                Some(
                    MoeParams {
                        num_experts: read_or(tc, "n_routed_experts", 128),
                        num_experts_per_tok: read_or(tc, "num_experts_per_tok", 8),
                        moe_intermediate_size: width,
                        norm_topk_prob: true,
                        decoder_sparse_step: 1,
                        mlp_only_layers: Vec::new(),
                        router: RouterKind::Dots,
                        first_k_dense_replace: read_or(tc, "first_k_dense_replace", 3),
                        routed_scaling_factor: number_or(get_num(tc, "routed_scaling_factor"), "2.5"),
                        shared_expert_intermediate_size: width * shared,
                        shared_gate: false,
                    },
                ),
            )
        },
        ArchKind::Qwen3Moe => {
            let experts: i64 = match read_experts(tc) {
                Some(n) => n,
                None => {
                    return Err(ConfigError::NoExpertCount);
                },
            };
            let per_token: i64 = match get_i64(tc, "num_experts_per_tok") {
                Some(n) => n,
                None => {
                    return Err(ConfigError::NoExpertsPerToken);
                },
            };
            let width: i64 = match get_i64(tc, "moe_intermediate_size") {
                Some(w) => w,
                None => {
                    return Err(ConfigError::NoExpertWidth);
                },
            };
            if let Some(false) = get_bool(tc, "norm_topk_prob") {
                return Err(ConfigError::UnnormalizedRouting);
            }
            Ok(
                Some(
                    MoeParams {
                        num_experts: experts,
                        num_experts_per_tok: per_token,
                        moe_intermediate_size: width,
                        norm_topk_prob: true,
                        decoder_sparse_step: read_or(tc, "decoder_sparse_step", 1),
                        mlp_only_layers: read_wholes(tc, "mlp_only_layers"),
                        router: RouterKind::Std,
                        first_k_dense_replace: 0,
                        routed_scaling_factor: number_or(None, "1.0"),
                        shared_expert_intermediate_size: 0,
                        shared_gate: false,
                    },
                ),
            )
        },
        ArchKind::Qwen4Exp => {
            let width: i64 = match get_i64(tc, "moe_intermediate_size") {
                Some(w) => w,
                None => {
                    return Err(ConfigError::NoExpertWidth);
                },
            };
            let experts: i64 = match read_experts(tc) {
                Some(n) => n,
                None => {
                    return Err(ConfigError::NoExpertCount);
                },
            };
            let per_token: i64 = match get_i64(tc, "num_experts_per_tok") {
                Some(n) => n,
                None => {
                    return Err(ConfigError::NoExpertsPerToken);
                },
            };
            Ok(
                Some(
                    MoeParams {
                        num_experts: experts,
                        num_experts_per_tok: per_token,
                        moe_intermediate_size: width,
                        norm_topk_prob: true,
                        decoder_sparse_step: 1,
                        mlp_only_layers: Vec::new(),
                        router: RouterKind::Std,
                        first_k_dense_replace: 0,
                        routed_scaling_factor: number_or(None, "1.0"),
                        shared_expert_intermediate_size: read_or(tc, "shared_expert_intermediate_size", width),
                        shared_gate: true,
                    },
                ),
            )
        },
        _ => Ok(None),
    }
}

fn read_qwen4(tc: &Json, kind: ArchKind, eos: &Vec<i64>) -> (r: Result<Option<Qwen4Params>, ConfigError>)
    requires
        kind == ArchKind::Qwen4Exp ==> forall|i: int|
            0 <= i < ple_ids(*tc).len() ==> #[trigger] ple_ids(*tc)[i] > i64::MIN,
    ensures
        match r {
            Ok(q) => indexer_refusal(*tc, kind) is None && qwen4_is(q, *tc, kind, eos@),
            Err(e) => indexer_refusal(*tc, kind) == Some(e.says()),
        },
{
    if kind != ArchKind::Qwen4Exp {
        return Ok(None);
    }
    let heads: i64 = match get_i64(tc, "indexer_n_heads") {
        Some(n) => n,
        None => {
            return Err(ConfigError::NoIndexerHeads);
        },
    };
    let dim: i64 = match get_i64(tc, "indexer_head_dim") {
        Some(n) => n,
        None => {
            return Err(ConfigError::NoIndexerHeadDim);
        },
    };
    let budget: i64 = match get_i64(tc, "indexer_budget") {
        Some(n) => n,
        None => {
            return Err(ConfigError::NoIndexerBudget);
        },
    };
    let ids = read_wholes(tc, "ple_layer_ids");
    assert(ids@ == ple_ids(*tc));
    let mut from_zero: Vec<i64> = Vec::new();
    let mut i: usize = 0;
    while i < ids.len()
        invariant
            i <= ids@.len(),
            ids@ == ple_ids(*tc),
            forall|j: int| 0 <= j < ple_ids(*tc).len() ==> #[trigger] ple_ids(*tc)[j] > i64::MIN,
            from_zero@.len() == i,
            forall|j: int| 0 <= j < i ==> #[trigger] from_zero@[j] == ids@[j] - 1,
        decreases ids@.len() - i,
    {
        assert(ple_ids(*tc)[i as int] > i64::MIN);
        from_zero.push(ids[i] - 1);
        i = i + 1;
    }
    assert(from_zero@ =~= Seq::new(ple_ids(*tc).len(), |j: int| (ple_ids(*tc)[j] - 1) as i64));
    let ple_eos: i64 = match get_i64(tc, "eos_token_id") {
        Some(x) => x,
        None => if eos.len() > 0 {
            eos[0]
        } else {
            0
        },
    };
    Ok(
        Some(
            Qwen4Params {
                hc_mult: read_or(tc, "hc_count", 4),
                indexer_n_heads: heads,
                indexer_head_dim: dim,
                indexer_budget: budget,
                indexer_compress_ratio: read_or(tc, "indexer_compress_ratio", 4),
                ple_layer_ids: from_zero,
                ple_embed_dim: read_or(tc, "ple_embed_dim", 0),
                ple_conv_kernel_size: read_or(tc, "ple_conv_kernel_size", 4),
                ngram_size: read_or(tc, "ngram_size", 0),
                heads_per_ngram: read_or(tc, "heads_per_ngram", 0),
                ple_eos_token_id: ple_eos,
            },
        ),
    )
}

fn read_num(v: &Json) -> (r: Num)
    requires
        *v is Number,
    ensures
        Json::Number(r) == *v,
{
    match v {
        Json::Number(n) => copy_num(n),
        _ => Num::Unsigned(0),
    }
}

fn read_triple(prep: &Json, key: &str, default: &str) -> (r: (Num, Num, Num))
    requires
        triple_ok(*prep, key@),
    ensures
        triple_is(r, *prep, key@, default@),
{
    match get_list(prep, key) {
        Some(a) => if a.len() == 3 {
            return (read_num(&a[0]), read_num(&a[1]), read_num(&a[2]));
        },
        None => {},
    }
    (number_or(None, default), number_or(None, default), number_or(None, default))
}

fn read_size(prep: &Json, key: &str, default: i64) -> (r: i64)
    ensures
        r == or_default(size_at(*prep, key@), default),
{
    match prep.get("size") {
        Some(s) => read_or(s, key, default),
        None => default,
    }
}

fn need(v: Option<i64>) -> (r: i64)
    requires
        v is Some,
    ensures
        v == Some(r),
{
    match v {
        Some(x) => x,
        None => 0,
    }
}

fn read_vision(raw: &Json, prep: &Json, hidden_size: i64) -> (r: Option<VisionConfig>)
    requires
        has_rest(*raw, *prep),
        whole_at(text_config(*raw), "hidden_size"@) == Some(hidden_size),
    ensures
        vision_is(r, *raw, *prep),
{
    let vc = match raw.get("vision_config") {
        Some(v) => v,
        None => {
            return None;
        },
    };
    let depth: i64 = match get_i64(vc, "depth") {
        Some(d) => d,
        None => {
            return None;
        },
    };
    let width: i64 = need(get_i64(vc, "hidden_size"));
    let heads: i64 = need(get_i64(vc, "num_heads"));
    Some(
        VisionConfig {
            depth,
            hidden_size: width,
            intermediate_size: need(get_i64(vc, "intermediate_size")),
            num_heads: heads,
            head_dim: divide(width, heads),
            out_hidden_size: read_or(vc, "out_hidden_size", hidden_size),
            patch_size: read_or(vc, "patch_size", 16),
            temporal_patch_size: read_or(vc, "temporal_patch_size", 2),
            spatial_merge_size: read_or(vc, "spatial_merge_size", 2),
            num_position_embeddings: read_or(vc, "num_position_embeddings", 2304),
            deepstack_visual_indexes: read_wholes(vc, "deepstack_visual_indexes"),
            image_mean: read_triple(prep, "image_mean", "0.5"),
            image_std: read_triple(prep, "image_std", "0.5"),
            min_pixels: read_size(prep, "shortest_edge", 3136),
            max_pixels: read_size(prep, "longest_edge", 12845056),
        },
    )
}

fn rope_object(tc: &Json) -> (r: Option<&Json>)
    ensures
        match r {
            Some(p) => rope_params(*tc) == Some(*p),
            None => rope_params(*tc) is None,
        },
{
    match tc.get("rope_parameters") {
        Some(p) => Some(p),
        None => tc.get("rope_scaling"),
    }
}

fn read_rope_num(tc: &Json, key: &str) -> (r: Option<Num>)
    ensures
        r == rope_num(*tc, key@),
{
    match rope_object(tc) {
        Some(p) => match get_num(p, key) {
            Some(n) => Some(n),
            None => get_num(tc, key),
        },
        None => get_num(tc, key),
    }
}

fn whole_or_zero(v: &Json) -> (r: i64)
    ensures
        r == or_default(whole(*v), 0),
{
    match v.as_i64() {
        Some(x) => x,
        None => 0,
    }
}

fn read_mrope(tc: &Json) -> (r: Option<(i64, i64, i64)>)
    ensures
        r == mrope_of(*tc),
{
    match rope_object(tc) {
        Some(p) => match get_list(p, "mrope_section") {
            Some(a) => if a.len() == 3 {
                Some((whole_or_zero(&a[0]), whole_or_zero(&a[1]), whole_or_zero(&a[2])))
            } else {
                None
            },
            None => None,
        },
        None => None,
    }
}

fn read_context(tc: &Json, over: Option<i64>) -> (r: i64)
    ensures
        r == context_length(*tc, over),
{
    match over {
        Some(m) => if m > 0 {
            return m;
        },
        None => {},
    }
    read_or(tc, "max_position_embeddings", 8192)
}

fn flag(v: Option<bool>) -> (r: bool)
    ensures
        r == (v == Some(true)),
{
    match v {
        Some(b) => b,
        None => false,
    }
}

impl Config {
    /// The configuration of a checkpoint. `raw` is its `config.json`, `prep` its
    /// preprocessor's configuration, or an empty object.
    pub fn from_json(raw: Json, prep: &Json, ov: &ConfigOverrides) -> (r: Result<Config, ConfigError>)
        requires
            readable(raw, *prep),
        ensures
            match r {
                Ok(c) => refusal(raw) is None && config_is(c, raw, *prep, ov.max_seq_len),
                Err(e) => refusal(raw) == Some(e.says()),
            },
    {
        let arch = match get_list(&raw, "architectures") {
            None => {
                return Err(ConfigError::NoArchitectures);
            },
            Some(a) => {
                if a.len() != 1 {
                    return Err(ConfigError::NotOneArchitecture);
                }
                match &a[0] {
                    Json::Text(t) => t.clone(),
                    _ => String::new(),
                }
            },
        };
        let (arch_kind, key_prefix) = match find_arch(arch.as_str()) {
            Some(found) => found,
            None => {
                return Err(ConfigError::UnsupportedArchitecture(arch));
            },
        };
        let tc = decoder_config(&raw);
        let hidden_size: i64 = need(get_i64(tc, "hidden_size"));
        let num_q_heads: i64 = need(get_i64(tc, "num_attention_heads"));
        let num_kv_heads: i64 = read_or(tc, "num_key_value_heads", num_q_heads);
        let head_dim: i64 = match get_i64(tc, "head_dim") {
            Some(d) => d,
            None => divide(hidden_size, num_q_heads),
        };
        let num_hidden_layers: i64 = need(get_i64(tc, "num_hidden_layers"));
        let max_position_embeddings: i64 = read_context(tc, ov.max_seq_len);
        let eos_token_ids = read_eos(&raw);
        let bos_token_id = read_either(tc, &raw, "bos_token_id");
        let rope = RopeSettings {
            head_dim,
            rope_theta: number_or(read_rope_num(tc, "rope_theta"), "10000.0"),
            rotary_dim: get_i64(tc, "rotary_dim"),
            partial_rotary_factor: number_or(read_rope_num(tc, "partial_rotary_factor"), "1.0"),
            max_position_embeddings,
            original_max_position_embeddings: get_i64(tc, "original_max_position_embeddings"),
            rope_style: if arch_kind == ArchKind::Glm4 {
                RopeStyle::Gptj
            } else {
                RopeStyle::Neox
            },
        };
        let rms_norm_eps = match get_num(tc, "rms_norm_eps") {
            Some(n) => n,
            None => Num::Unsigned(0),
        };
        let tie_word_embeddings = match get_bool(&raw, "tie_word_embeddings") {
            Some(b) => b,
            None => flag(get_bool(tc, "tie_word_embeddings")),
        };
        let layer_types = match read_layers(tc, arch_kind, num_hidden_layers) {
            Ok(v) => v,
            Err(e) => {
                return Err(e);
            },
        };
        let attn_output_gate = arch_kind.is_hybrid() && flag(get_bool(tc, "attn_output_gate"));
        let gdn = read_gdn(tc, arch_kind);
        let moe = match read_moe(tc, arch_kind) {
            Ok(m) => m,
            Err(e) => {
                return Err(e);
            },
        };
        let qwen4 = match read_qwen4(tc, arch_kind, &eos_token_ids) {
            Ok(q) => q,
            Err(e) => {
                return Err(e);
            },
        };
        let mrope_section = read_mrope(tc);
        let vision = read_vision(&raw, prep, hidden_size);
        let vision_start_token_id = read_or(&raw, "vision_start_token_id", 151652);
        let vision_end_token_id = read_or(&raw, "vision_end_token_id", 151653);
        let image_token_id: i64 = match read_either(&raw, tc, "image_token_id") {
            Some(x) => x,
            None => 151655,
        };
        let qk_norm = if arch_kind == ArchKind::Glm4Moe {
            flag(get_bool(tc, "use_qk_norm"))
        } else {
            arch_kind.has_qk_norm()
        };
        let vocab_size: i64 = need(read_either(tc, &raw, "vocab_size"));
        let intermediate_size: i64 = need(get_i64(tc, "intermediate_size"));
        let gdn_gate_act = match get_str(tc, "output_gate_type") {
            Some(t) => if same_text(t, "sigmoid") {
                GateAct::Sigmoid
            } else {
                GateAct::Silu
            },
            None => GateAct::Silu,
        };
        Ok(
            Config {
                arch,
                arch_kind,
                qk_norm,
                key_prefix,
                vocab_size,
                hidden_size,
                intermediate_size,
                num_hidden_layers,
                num_q_heads,
                num_kv_heads,
                head_dim,
                rms_norm_eps,
                tie_word_embeddings,
                bos_token_id,
                eos_token_ids,
                max_position_embeddings,
                rope,
                norm_constant_bias: arch_kind.is_hybrid(),
                attn_output_gate,
                layer_types,
                gdn,
                gdn_gate_act,
                moe,
                qwen4,
                vision,
                mrope_section,
                vision_start_token_id,
                vision_end_token_id,
                image_token_id,
                raw,
            },
        )
    }

    /// The RoPE parameters, where they select a scaling of their own.
    pub fn rope_scaling(&self) -> (r: Option<&Json>)
        ensures
            match r {
                Some(p) => rope_scaling_of(text_config(self.raw)) == Some(*p),
                None => rope_scaling_of(text_config(self.raw)) is None,
            },
    {
        let tc = decoder_config(&self.raw);
        match rope_object(tc) {
            Some(p) => match get_str(p, "rope_type") {
                Some(t) => if same_text(t, "default") || same_text(t, "mrope") {
                    None
                } else {
                    Some(p)
                },
                None => None,
            },
            None => None,
        }
    }
}

fn can_divide(a: Option<i64>, b: Option<i64>) -> (r: bool)
    ensures
        r == (a is Some && b is Some && divisible(a->0, b->0)),
{
    match (a, b) {
        (Some(x), Some(y)) => y != 0 && (x != i64::MIN || y != -1),
        _ => false,
    }
}

fn holds_decoder(raw: &Json, kind: ArchKind) -> (r: bool)
    ensures
        r == has_decoder(*raw, kind),
{
    let tc = decoder_config(raw);
    let hidden = get_i64(tc, "hidden_size");
    let heads = get_i64(tc, "num_attention_heads");
    if hidden.is_none() || heads.is_none() {
        return false;
    }
    if get_i64(tc, "head_dim").is_none() && !can_divide(hidden, heads) {
        return false;
    }
    let layers: i64 = match get_i64(tc, "num_hidden_layers") {
        Some(n) => n,
        None => {
            return false;
        },
    };
    if !kind.is_hybrid() && layers < 0 {
        return false;
    }
    if kind.is_hybrid() && get_list(tc, "layer_types").is_none() && layers > 0 && read_or(
        tc,
        "full_attention_interval",
        4,
    ) == 0 {
        return false;
    }
    let source = match tc.get("eos_token_id") {
        Some(v) => Some(v),
        None => raw.get("eos_token_id"),
    };
    match source {
        Some(v) => match v {
            Json::Number(_) => {
                if v.as_i64().is_none() {
                    return false;
                }
            },
            _ => {},
        },
        None => {},
    }
    if get_num(tc, "rms_norm_eps").is_none() {
        return false;
    }
    if kind == ArchKind::Glm4Moe {
        match get_i64(tc, "moe_intermediate_size") {
            Some(w) => {
                let n = read_or(tc, "n_shared_experts", 1);
                assert(-0x4000_0000_0000_0000_0000_0000_0000_0000 <= w * n
                    <= 0x4000_0000_0000_0000_0000_0000_0000_0000) by (nonlinear_arith)
                    requires
                        -0x8000_0000_0000_0000 <= w <= 0x7fff_ffff_ffff_ffff,
                        -0x8000_0000_0000_0000 <= n <= 0x7fff_ffff_ffff_ffff,
                ;
                let p: i128 = w as i128 * n as i128;
                if p < i64::MIN as i128 || p > i64::MAX as i128 {
                    return false;
                }
            },
            None => {},
        }
    }
    if kind == ArchKind::Qwen4Exp {
        let ids = read_wholes(tc, "ple_layer_ids");
        assert(ids@ == ple_ids(*tc));
        let mut i: usize = 0;
        while i < ids.len()
            invariant
                i <= ids@.len(),
                *tc == text_config(*raw),
                kind == ArchKind::Qwen4Exp,
                ids@ == ple_ids(*tc),
                forall|j: int| 0 <= j < i ==> #[trigger] ple_ids(*tc)[j] > i64::MIN,
            decreases ids@.len() - i,
        {
            if ids[i] == i64::MIN {
                assert(!(ple_ids(*tc)[i as int] > i64::MIN));
                return false;
            }
            i = i + 1;
        }
    }
    true
}

fn holds_triple(prep: &Json, key: &str) -> (r: bool)
    ensures
        r == triple_ok(*prep, key@),
{
    match get_list(prep, key) {
        Some(a) => a.len() != 3 || (matches!(&a[0], Json::Number(_)) && matches!(&a[1], Json::Number(_))
            && matches!(&a[2], Json::Number(_))),
        None => true,
    }
}

fn holds_rest(raw: &Json, prep: &Json) -> (r: bool)
    ensures
        r == has_rest(*raw, *prep),
{
    let tc = decoder_config(raw);
    if read_either(tc, raw, "vocab_size").is_none() || get_i64(tc, "intermediate_size").is_none() {
        return false;
    }
    match raw.get("vision_config") {
        Some(vc) => {
            if get_i64(vc, "depth").is_none() {
                return true;
            }
            can_divide(get_i64(vc, "hidden_size"), get_i64(vc, "num_heads")) && get_i64(
                vc,
                "intermediate_size",
            ).is_some() && holds_triple(prep, "image_mean") && holds_triple(prep, "image_std")
        },
        None => true,
    }
}

/// Whether a value is what a preprocessor's file says; an empty object where there is no file, or
/// it holds no JSON.
pub open spec fn prep_is(prep: Option<Seq<u8>>, p: Json) -> bool {
    match prep {
        Some(b) if json_read(b) is Some => json_read(b) == Some(p),
        _ => p is Object && p->Object_0@ == Seq::<(String, Json)>::empty(),
    }
}

/// The bytes of a file that may be missing.
pub open spec fn file_bytes(f: Option<&[u8]>) -> Option<Seq<u8>> {
    match f {
        Some(b) => Some(b@),
        None => None,
    }
}

/// What comes of a `config.json` and a preprocessor's configuration.
pub open spec fn config_read(raw: Json, prep: Json, over: Option<i64>, r: Result<Config, ReadError>) -> bool {
    if readable(raw, prep) {
        match r {
            Ok(c) => refusal(raw) is None && config_is(c, raw, prep, over),
            Err(ReadError::Refused(e)) => refusal(raw) == Some(e.says()),
            Err(_) => false,
        }
    } else {
        r == Err::<Config, ReadError>(ReadError::Unreadable)
    }
}

fn read_prep(prep: Option<&[u8]>) -> (p: Json)
    ensures
        prep_is(file_bytes(prep), p),
{
    if let Some(bytes) = prep {
        if let Some(p) = read_json(bytes) {
            return p;
        }
    }
    Json::Object(Vec::new())
}

impl Config {
    /// The configuration that the bytes of a `config.json` give, with those of the preprocessor's
    /// file where the checkpoint has one.
    pub fn from_bytes(config: &[u8], prep: Option<&[u8]>, ov: &ConfigOverrides) -> (r: Result<Config, ReadError>)
        ensures
            match json_read(config@) {
                None => r == Err::<Config, ReadError>(ReadError::NotJson),
                Some(raw) => exists|p: Json| #[trigger]
                    prep_is(file_bytes(prep), p) && config_read(raw, p, ov.max_seq_len, r),
            },
    {
        let raw = match read_json(config) {
            Some(raw) => raw,
            None => {
                return Err(ReadError::NotJson);
            },
        };
        let p = read_prep(prep);
        if !Config::is_readable(&raw, &p) {
            return Err(ReadError::Unreadable);
        }
        match Config::from_json(raw, &p, ov) {
            Ok(c) => Ok(c),
            Err(e) => Err(ReadError::Refused(e)),
        }
    }

    /// Whether a configuration can be read.
    pub fn is_readable(raw: &Json, prep: &Json) -> (r: bool)
        ensures
            r == readable(*raw, *prep),
    {
        let arch = match get_list(raw, "architectures") {
            None => {
                return true;
            },
            Some(a) => {
                if a.len() != 1 {
                    return true;
                }
                match &a[0] {
                    Json::Text(t) => t,
                    _ => {
                        return false;
                    },
                }
            },
        };
        let kind = match find_arch(arch.as_str()) {
            Some((k, _)) => k,
            None => {
                return true;
            },
        };
        if !holds_decoder(raw, kind) {
            return false;
        }
        let tc = decoder_config(raw);
        let layers: i64 = need(get_i64(tc, "num_hidden_layers"));
        if read_layers(tc, kind, layers).is_err() || read_moe(tc, kind).is_err() {
            return true;
        }
        let eos = read_eos(raw);
        if read_qwen4(tc, kind, &eos).is_err() {
            return true;
        }
        holds_rest(raw, prep)
    }
}

} // verus!
