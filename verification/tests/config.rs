use exl3::config::{ArchKind, Config, ConfigError, ConfigOverrides, GateAct, LayerKind, MoeParams, ReadError, RopeStyle, RouterKind};
use exl3::json::{to_text, Json, Num};

const FULL: LayerKind = LayerKind::FullAttention;
const LINEAR: LayerKind = LayerKind::LinearAttention;

fn text(s: &str) -> Json {
    Json::Text(s.to_string())
}

fn n(k: i64) -> Json {
    Json::Number(Num::Unsigned(k as u64))
}

fn decimal(s: &str) -> Json {
    Json::Number(Num::Real(s.to_string()))
}

fn list(v: Vec<Json>) -> Json {
    Json::List(v)
}

fn object(members: Vec<(&str, Json)>) -> Json {
    Json::Object(members.into_iter().map(|(k, v)| (k.to_string(), v)).collect())
}

fn base(arch: &str, more: Vec<(&str, Json)>) -> Json {
    let mut m = vec![
        ("architectures", list(vec![text(arch)])),
        ("vocab_size", n(1000)),
        ("hidden_size", n(64)),
        ("intermediate_size", n(128)),
        ("num_hidden_layers", n(4)),
        ("num_attention_heads", n(8)),
        ("rms_norm_eps", decimal("1e-6")),
    ];
    m.extend(more);
    object(m)
}

fn none() -> Json {
    object(vec![])
}

fn read(raw: Json, max_seq_len: Option<i64>) -> Result<Config, ConfigError> {
    assert!(Config::is_readable(&raw, &none()));
    Config::from_json(raw, &none(), &ConfigOverrides { max_seq_len })
}

fn refusal(raw: Json) -> ConfigError {
    read(raw, None).err().unwrap()
}

#[test]
fn plain_configs_have_defaults() {
    let c = read(base("LlamaForCausalLM", vec![]), None).ok().unwrap();
    assert_eq!(c.arch, "LlamaForCausalLM");
    assert_eq!(c.arch_kind, ArchKind::Llama);
    assert_eq!(c.key_prefix, "model");
    assert!(!c.qk_norm);
    assert_eq!((c.vocab_size, c.hidden_size, c.intermediate_size), (1000, 64, 128));
    assert_eq!((c.num_q_heads, c.num_kv_heads, c.head_dim), (8, 8, 8));
    assert_eq!(c.max_position_embeddings, 8192);
    assert_eq!(c.layer_types, vec![LayerKind::FullAttention; 4]);
    assert!(c.eos_token_ids.is_empty());
    assert_eq!(c.bos_token_id, None);
    assert!(c.gdn.is_none() && c.moe.is_none() && c.qwen4.is_none() && c.vision.is_none());
    assert!(matches!(&c.rope.rope_theta, Num::Real(t) if t == "10000.0"));
    assert!(matches!(&c.rms_norm_eps, Num::Real(t) if t == "1e-6"));
    assert_eq!(c.rope.rope_style, RopeStyle::Neox);
    assert!(c.rope_scaling().is_none());
    assert_eq!((c.vision_start_token_id, c.vision_end_token_id, c.image_token_id), (151652, 151653, 151655));
}

#[test]
fn context_lengths_can_be_given() {
    let raw = || base("Qwen3ForCausalLM", vec![("max_position_embeddings", n(4096))]);
    assert_eq!(read(raw(), None).ok().unwrap().max_position_embeddings, 4096);
    assert_eq!(read(raw(), Some(100)).ok().unwrap().rope.max_position_embeddings, 100);
    assert_eq!(read(raw(), Some(0)).ok().unwrap().max_position_embeddings, 4096);
}

#[test]
fn end_tokens_are_one_or_many() {
    let c = read(base("Glm4ForCausalLM", vec![("eos_token_id", n(7))]), None).ok().unwrap();
    assert_eq!(c.eos_token_ids, vec![7]);
    assert_eq!(c.rope.rope_style, RopeStyle::Gptj);
    let c = read(base("Qwen3ForCausalLM", vec![("eos_token_id", list(vec![n(7), n(9)]))]), None).ok().unwrap();
    assert_eq!(c.eos_token_ids, vec![7, 9]);
    assert!(c.qk_norm);
}

#[test]
fn hybrid_stacks_have_a_layer_schedule() {
    let c = read(base("Qwen3_5ForCausalLM", vec![]), None).ok().unwrap();
    assert_eq!(c.layer_types, vec![LINEAR, LINEAR, LINEAR, FULL]);
    let g = c.gdn.unwrap();
    assert_eq!((g.fdim_qkv(), g.k_dim(), g.v_dim()), (2 * 16 * 128 + 32 * 128, 2048, 4096));
    assert_eq!(g.conv_kernel_size, 4);
    assert!(c.norm_constant_bias);
    assert!(!c.attn_output_gate);
    assert_eq!(c.gdn_gate_act, GateAct::Silu);
    let c = read(
        base(
            "Qwen3_5ForCausalLM",
            vec![
                (
                    "layer_types",
                    list(vec![
                        text("full_attention"),
                        text("linear_attention"),
                        text("full_attention"),
                        text("linear_attention"),
                    ]),
                ),
                ("attn_output_gate", Json::Bool(true)),
                ("output_gate_type", text("sigmoid")),
            ],
        ),
        None,
    )
    .ok()
    .unwrap();
    assert_eq!(c.layer_types, vec![FULL, LINEAR, FULL, LINEAR]);
    assert!(c.attn_output_gate);
    assert_eq!(c.gdn_gate_act, GateAct::Sigmoid);
}

#[test]
fn text_configs_are_nested() {
    let inner = match base("x", vec![("rope_parameters", object(vec![
        ("rope_theta", decimal("5e6")),
        ("rope_type", text("yarn")),
        ("mrope_section", list(vec![n(11), n(11), n(10)])),
    ]))]) {
        Json::Object(o) => Json::Object(o),
        _ => unreachable!(),
    };
    let raw = object(vec![
        ("architectures", list(vec![text("Qwen3VLForConditionalGeneration")])),
        ("text_config", inner),
        ("tie_word_embeddings", Json::Bool(true)),
        (
            "vision_config",
            object(vec![
                ("depth", n(2)),
                ("hidden_size", n(32)),
                ("num_heads", n(4)),
                ("intermediate_size", n(48)),
                ("deepstack_visual_indexes", list(vec![n(1)])),
            ]),
        ),
    ]);
    let c = read(raw, None).ok().unwrap();
    assert_eq!(c.arch_kind, ArchKind::Qwen3);
    assert_eq!(c.key_prefix, "model.language_model");
    assert!(c.tie_word_embeddings);
    assert_eq!(c.mrope_section, Some((11, 11, 10)));
    assert!(c.rope_scaling().is_some());
    assert!(matches!(&c.rope.rope_theta, Num::Real(t) if t == "5e6"));
    let v = c.vision.unwrap();
    assert_eq!((v.depth, v.head_dim, v.out_hidden_size, v.patch_size), (2, 8, 64, 16));
    assert_eq!(v.deepstack_visual_indexes, vec![1]);
    assert_eq!((v.min_pixels, v.max_pixels), (3136, 12845056));
}

#[test]
fn expert_layers_are_read() {
    let c = read(
        base(
            "Qwen3MoeForCausalLM",
            vec![
                ("num_experts", n(16)),
                ("num_experts_per_tok", n(2)),
                ("moe_intermediate_size", n(32)),
                ("decoder_sparse_step", n(2)),
                ("mlp_only_layers", list(vec![n(3)])),
            ],
        ),
        None,
    )
    .ok()
    .unwrap();
    let m = c.moe.unwrap();
    assert_eq!(m.router, RouterKind::Std);
    assert_eq!((0..4).map(|i| m.is_sparse_layer(i)).collect::<Vec<bool>>(), vec![false, true, false, false]);
    let c = read(
        base("Glm4MoeForCausalLM", vec![("moe_intermediate_size", n(32)), ("n_shared_experts", n(2)), ("use_qk_norm", Json::Bool(true))]),
        None,
    )
    .ok()
    .unwrap();
    assert!(c.qk_norm);
    let m = c.moe.unwrap();
    assert_eq!(m.router, RouterKind::Dots);
    assert_eq!((m.num_experts, m.num_experts_per_tok, m.first_k_dense_replace), (128, 8, 3));
    assert_eq!(m.shared_expert_intermediate_size, 64);
    assert!(matches!(&m.routed_scaling_factor, Num::Real(t) if t == "2.5"));
    assert!(!m.is_sparse_layer(2));
    assert!(m.is_sparse_layer(3));
}

fn sparse(step: i64, experts: i64) -> MoeParams {
    MoeParams {
        num_experts: experts,
        num_experts_per_tok: 1,
        moe_intermediate_size: 1,
        norm_topk_prob: true,
        decoder_sparse_step: step,
        mlp_only_layers: vec![],
        router: RouterKind::Std,
        first_k_dense_replace: 0,
        routed_scaling_factor: Num::Unsigned(1),
        shared_expert_intermediate_size: 0,
        shared_gate: false,
    }
}

#[test]
fn layers_without_experts_are_dense() {
    assert!(!sparse(1, 0).is_sparse_layer(0));
    assert!(!sparse(0, 8).is_sparse_layer(0));
    assert!(sparse(1, 8).is_sparse_layer(0));
}

#[test]
fn hyper_connected_configs_are_read() {
    let more = vec![
        ("moe_intermediate_size", n(32)),
        ("num_experts", n(4)),
        ("num_experts_per_tok", n(2)),
        ("indexer_n_heads", n(3)),
        ("indexer_head_dim", n(5)),
        ("indexer_budget", n(7)),
        ("ple_layer_ids", list(vec![n(1), n(3)])),
        ("eos_token_id", n(9)),
    ];
    let c = read(base("Qwen4ExpForConditionalGeneration", more), None).ok().unwrap();
    let q = c.qwen4.unwrap();
    assert_eq!(q.ple_layer_ids, vec![0, 2]);
    assert_eq!((q.hc_mult, q.indexer_n_heads, q.indexer_head_dim, q.indexer_budget), (4, 3, 5, 7));
    assert_eq!(q.ple_eos_token_id, 9);
    let m = c.moe.unwrap();
    assert_eq!(m.shared_expert_intermediate_size, 32);
    assert!(m.shared_gate);
}

#[test]
fn every_refusal_has_its_config() {
    assert!(matches!(refusal(object(vec![])), ConfigError::NoArchitectures));
    assert!(matches!(refusal(object(vec![("architectures", list(vec![]))])), ConfigError::NotOneArchitecture));
    match refusal(object(vec![("architectures", list(vec![text("X")]))])) {
        ConfigError::UnsupportedArchitecture(s) => assert_eq!(s, "X"),
        _ => panic!("another error"),
    }
    let hybrid = |types: Vec<Json>| refusal(base("Qwen3_5ForCausalLM", vec![("layer_types", list(types))]));
    assert!(matches!(hybrid(vec![]), ConfigError::LayerTypesLength));
    let full = || text("full_attention");
    match hybrid(vec![full(), full(), text("odd"), n(1)]) {
        ConfigError::UnknownLayerType(Some(s)) => assert_eq!(s, "odd"),
        _ => panic!("another error"),
    }
    assert!(matches!(hybrid(vec![full(), full(), full(), n(1)]), ConfigError::UnknownLayerType(None)));
    let moe = |more: Vec<(&str, Json)>| refusal(base("Qwen3MoeForCausalLM", more));
    assert!(matches!(moe(vec![]), ConfigError::NoExpertCount));
    assert!(matches!(moe(vec![("num_experts", n(4))]), ConfigError::NoExpertsPerToken));
    let two = vec![("num_local_experts", n(4)), ("num_experts_per_tok", n(2))];
    assert!(matches!(moe(two), ConfigError::NoExpertWidth));
    let flat = vec![
        ("num_experts", n(4)),
        ("num_experts_per_tok", n(2)),
        ("moe_intermediate_size", n(8)),
        ("norm_topk_prob", Json::Bool(false)),
    ];
    assert!(matches!(moe(flat), ConfigError::UnnormalizedRouting));
    let q4 = |more: Vec<(&str, Json)>| {
        let mut m = vec![("num_experts", n(4)), ("num_experts_per_tok", n(2)), ("moe_intermediate_size", n(8))];
        m.extend(more);
        refusal(base("Qwen4ExpForConditionalGeneration", m))
    };
    assert!(matches!(q4(vec![]), ConfigError::NoIndexerHeads));
    assert!(matches!(q4(vec![("indexer_n_heads", n(1))]), ConfigError::NoIndexerHeadDim));
    assert!(matches!(q4(vec![("indexer_n_heads", n(1)), ("indexer_head_dim", n(1))]), ConfigError::NoIndexerBudget));
}

#[test]
fn configs_without_a_decoder_cannot_be_read() {
    let raw = object(vec![("architectures", list(vec![text("LlamaForCausalLM")]))]);
    assert!(!Config::is_readable(&raw, &none()));
    let raw = object(vec![("architectures", list(vec![n(3)]))]);
    assert!(!Config::is_readable(&raw, &none()));
}

fn from_bytes(config: &str, prep: Option<&str>) -> Result<Config, ReadError> {
    Config::from_bytes(config.as_bytes(), prep.map(|p| p.as_bytes()), &ConfigOverrides { max_seq_len: Some(4096) })
}

#[test]
fn configs_are_read_from_their_bytes() {
    let c = from_bytes(&to_text(&base("LlamaForCausalLM", vec![])), None).ok().unwrap();
    assert_eq!((c.arch.as_str(), c.vocab_size, c.num_hidden_layers), ("LlamaForCausalLM", 1000, 4));
    assert_eq!(c.max_position_embeddings, 4096);
    assert!(matches!(&c.rms_norm_eps, Num::Real(t) if t.parse() == Ok(1e-6)));
    let seeing = to_text(&base(
        "Qwen3ForCausalLM",
        vec![(
            "vision_config",
            object(vec![("depth", n(2)), ("hidden_size", n(32)), ("num_heads", n(4)), ("intermediate_size", n(48))]),
        )],
    ));
    let pixels = |prep: Option<&str>| {
        let v = from_bytes(&seeing, prep).ok().unwrap().vision.unwrap();
        (v.min_pixels, v.max_pixels)
    };
    assert_eq!(pixels(Some(r#"{"size": {"shortest_edge": 100, "longest_edge": 200}}"#)), (100, 200));
    assert_eq!(pixels(Some("{")), (3136, 12845056));
    assert_eq!(pixels(None), (3136, 12845056));
}

#[test]
fn bytes_that_are_no_config_say_why() {
    assert!(matches!(from_bytes("{", None), Err(ReadError::NotJson)));
    assert!(matches!(from_bytes("{}", None), Err(ReadError::Refused(ConfigError::NoArchitectures))));
    assert!(matches!(from_bytes(r#"{"architectures": ["LlamaForCausalLM"]}"#, None), Err(ReadError::Unreadable)));
}

fn heads(q: i64, kv: i64, dim: i64) -> (i64, i64) {
    let raw = base("LlamaForCausalLM", vec![]);
    let mut c = read(raw, None).ok().unwrap();
    c.num_q_heads = q;
    c.num_kv_heads = kv;
    c.head_dim = dim;
    c.kv_heads_eff()
}

#[test]
fn key_heads_are_repeated_until_a_kernel_fits() {
    assert_eq!(heads(32, 8, 128), (8, 1));
    assert_eq!(heads(24, 8, 64), (24, 3));
    assert_eq!(heads(24, 8, 128), (8, 1));
    assert_eq!(heads(32, 2, 128), (4, 2));
    assert_eq!(heads(6, 4, 64), (6, 1));
}

#[test]
fn architectures_have_their_traits() {
    assert!(ArchKind::Qwen3.has_qk_norm() && !ArchKind::Llama.has_qk_norm());
    assert!(ArchKind::Glm4.has_post_norms() && !ArchKind::Qwen3.has_post_norms());
    assert!(ArchKind::Qwen35.is_hybrid() && ArchKind::Qwen4Exp.is_hybrid() && !ArchKind::Glm4Moe.is_hybrid());
    assert!(ArchKind::Qwen35.has_qwen3_vl_tower() && !ArchKind::Qwen3.has_qwen3_vl_tower());
}
