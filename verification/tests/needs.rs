use exl3::cache::{head_planes, LayerPlanes};
use exl3::config::{Config, ConfigOverrides};
use exl3::dflash2::DFlash2Params;
use exl3::json::{Json, Num};
use exl3::linear::LinearError;
use exl3::model::plan_load;
use exl3::needs::{drafter_needs, load_needs, mtp_needs, part_needs, LoadError, Need};
use exl3::tensors::TensorInfo;

fn n(k: i64) -> Json {
    Json::Number(Num::Unsigned(k as u64))
}

fn config(arch: &str, more: Vec<(&str, Json)>) -> Config {
    let mut m = vec![
        ("architectures", Json::List(vec![Json::Text(arch.to_string())])),
        ("vocab_size", n(1000)),
        ("hidden_size", n(256)),
        ("intermediate_size", n(512)),
        ("num_hidden_layers", n(1)),
        ("num_attention_heads", n(8)),
        ("num_key_value_heads", n(2)),
        ("head_dim", n(64)),
        ("rms_norm_eps", Json::Number(Num::Real("1e-6".to_string()))),
    ];
    m.extend(more);
    let raw = Json::Object(m.into_iter().map(|(k, v)| (k.to_string(), v)).collect());
    let prep = Json::Object(vec![]);
    assert!(Config::is_readable(&raw, &prep));
    Config::from_json(raw, &prep, &ConfigOverrides { max_seq_len: None }).ok().unwrap()
}

fn info(name: &str) -> TensorInfo {
    TensorInfo { name: name.to_string(), rows: 1, cols: 1, depth: 16 }
}

fn names(v: &Vec<Need>) -> Vec<String> {
    v.iter()
        .map(|x| match x {
            Need::Linear { key, in_features, out_features, trim } => {
                format!("{key} {in_features}x{out_features}{}", if *trim { " cut" } else { "" })
            }
            Need::Tensor { name } => name.clone(),
            Need::SharedExpert { key } => format!("no shared expert at {key}"),
        })
        .collect()
}

/// Tensors that meet the needs, all plain.
fn tensors_for(v: &Vec<Need>) -> Vec<TensorInfo> {
    v.iter()
        .filter_map(|x| match x {
            Need::Linear { key, .. } => Some(info(&format!("{key}.weight"))),
            Need::Tensor { name } => Some(info(name)),
            Need::SharedExpert { .. } => None,
        })
        .collect()
}

#[test]
fn blocks_are_read_in_order() {
    let c = config("Qwen3ForCausalLM", vec![]);
    let parts = plan_load(&c);
    let v = part_needs(&vec![], &c, &parts[1]);
    assert_eq!(
        names(&v),
        vec![
            "model.layers.0.input_layernorm.weight",
            "model.layers.0.self_attn.q_proj 256x512 cut",
            "model.layers.0.self_attn.k_proj 256x128 cut",
            "model.layers.0.self_attn.v_proj 256x128 cut",
            "model.layers.0.self_attn.o_proj 512x256 cut",
            "model.layers.0.self_attn.q_norm.weight",
            "model.layers.0.self_attn.k_norm.weight",
            "model.layers.0.post_attention_layernorm.weight",
            "model.layers.0.mlp.gate_proj 256x512",
            "model.layers.0.mlp.up_proj 256x512",
            "model.layers.0.mlp.down_proj 512x256 cut",
        ]
    );
    assert_eq!(names(&part_needs(&vec![], &c, &parts[0])), vec!["model.embed_tokens.weight"]);
    assert_eq!(names(&part_needs(&vec![], &c, &parts[2])), vec!["model.norm.weight"]);
    assert_eq!(names(&part_needs(&vec![], &c, &parts[3])), vec!["lm_head 256x1000"]);
}

#[test]
fn sandwich_norms_are_read_where_they_are() {
    let c = config("Glm4ForCausalLM", vec![]);
    let v = names(&part_needs(&vec![], &c, &plan_load(&c)[1]));
    assert!(v.contains(&"model.layers.0.post_self_attn_layernorm.weight".to_string()));
    assert_eq!(v.last().unwrap(), "model.layers.0.post_mlp_layernorm.weight");
    assert!(!v.iter().any(|x| x.contains("q_norm")));
}

#[test]
fn experts_are_read_with_the_shared_one() {
    let c = config(
        "Glm4MoeForCausalLM",
        vec![("moe_intermediate_size", n(32)), ("n_routed_experts", n(2)), ("first_k_dense_replace", n(0))],
    );
    let part = &plan_load(&c)[1];
    let v = names(&part_needs(&vec![], &c, part));
    assert!(v.contains(&"model.layers.0.mlp.gate.weight".to_string()));
    assert!(v.contains(&"model.layers.0.mlp.experts.1.down_proj 32x256 cut".to_string()));
    assert_eq!(v.last().unwrap(), "no shared expert at model.layers.0.mlp");
    let t = vec![info("model.layers.0.mlp.shared_experts.down_proj.weight")];
    let v = names(&part_needs(&t, &c, part));
    assert_eq!(v.last().unwrap(), "model.layers.0.mlp.shared_experts.down_proj 32x256 cut");
}

#[test]
fn output_gates_double_the_queries() {
    let more = vec![("attn_output_gate", Json::Bool(true)), ("full_attention_interval", n(1))];
    let c = config("Qwen3_5ForCausalLM", more);
    let v = names(&part_needs(&vec![], &c, &plan_load(&c)[1]));
    assert_eq!(v[0], "model.language_model.layers.0.self_attn.q_proj 256x1024 cut");
    assert_eq!(v[6], "model.language_model.layers.0.input_layernorm.weight");
    let v = names(&mtp_needs(&c));
    assert_eq!(v[2], "mtp.fc 512x256 cut");
    assert_eq!(v.last().unwrap(), "mtp.norm.weight");
    assert_eq!(v.len(), 4 + 6 + 1 + 3 + 1);
}

#[test]
fn drafters_have_convolutions() {
    let c = config("DFlash2DraftModel", vec![]);
    let p = DFlash2Params {
        block_size: 8,
        conv_kernel_size: 2,
        conv_group_size: 16,
        mask_token_id: 1,
        selector_rank: 24,
        selector_top_k: 4,
        target_layer_ids: vec![1, 2, 3],
        sliding_window: 2048,
    };
    let v = names(&drafter_needs(&c, &p));
    assert_eq!(v[0], "fc 768x256 cut");
    assert!(v.contains(&"layers.0.attention_conv.base_kernel".to_string()));
    assert!(v.contains(&"layers.0.mlp_conv.kernel_projection 256x64 cut".to_string()));
    assert!(v.contains(&"candidate_selector.hidden_projection 256x24 cut".to_string()));
    assert_eq!(v.last().unwrap(), "candidate_selector.successor_codebook");
}

#[test]
fn hyper_connected_layers_and_injections_are_read() {
    let more = vec![
        ("moe_intermediate_size", n(32)),
        ("num_experts", n(1)),
        ("num_experts_per_tok", n(1)),
        ("indexer_n_heads", n(3)),
        ("indexer_head_dim", n(5)),
        ("indexer_budget", n(7)),
        ("ple_layer_ids", Json::List(vec![n(1)])),
        ("ple_embed_dim", n(320)),
    ];
    let c = config("Qwen4ExpForConditionalGeneration", more);
    let parts = plan_load(&c);
    let all: Vec<Vec<String>> = parts.iter().map(|p| names(&part_needs(&vec![], &c, p))).collect();
    assert_eq!(all[1][0], "model.language_model.layers.0.ple.key_proj 320x1024 cut");
    assert!(all[2].contains(&"model.language_model.layers.0.attn_hyper_connection.block_inject_weight.weight".to_string()));
    assert_eq!(all[2].last().unwrap(), "model.language_model.layers.0.mlp.shared_expert_gate 256x1");
    let mixer = all.iter().find(|v| v.iter().any(|x| x.contains("hyper_connection_mixer"))).unwrap();
    assert_eq!(mixer.len(), 3);
}

#[test]
fn loading_stops_at_the_first_thing_that_is_missing() {
    let c = config("Qwen3ForCausalLM", vec![]);
    let v = part_needs(&vec![], &c, &plan_load(&c)[1]);
    let t = tensors_for(&v);
    let plans = load_needs(&t, &v).ok().unwrap();
    assert_eq!(plans.len(), 11);
    assert!(plans[0].is_none());
    assert_eq!(plans[1].as_ref().unwrap().key, "model.layers.0.self_attn.q_proj");
    let without = |gone: &str| t.iter().filter(|x| x.name != gone).map(|x| info(&x.name)).collect::<Vec<TensorInfo>>();
    match load_needs(&without("model.layers.0.input_layernorm.weight"), &v) {
        Err(LoadError::Missing { name }) => assert_eq!(name, "model.layers.0.input_layernorm.weight"),
        _ => panic!("another result"),
    }
    assert!(matches!(
        load_needs(&without("model.layers.0.mlp.up_proj.weight"), &v),
        Err(LoadError::Linear(LinearError::NoTensors))
    ));
    let gone = vec![Need::SharedExpert { key: "k".to_string() }];
    match load_needs(&t, &gone) {
        Err(LoadError::NoSharedExpert { key }) => assert_eq!(key, "k"),
        _ => panic!("another result"),
    }
}

#[test]
fn the_head_has_a_cache_of_its_own() {
    let c = config("Qwen3_5ForCausalLM", vec![]);
    assert_eq!(
        head_planes(&c, 7, false),
        Some(LayerPlanes::KvQuant { num_pages: 7, k_words: 32, v_words: 32, groups: 4 })
    );
    assert_eq!(head_planes(&c, 7, true), Some(LayerPlanes::Kv { num_pages: 7, kv_heads: 2, head_dim: 64 }));
}
