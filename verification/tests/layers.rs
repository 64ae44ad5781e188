use exl3::arith::{divide, fold};
use exl3::attention::{choose_path, query_width, AttnPath, KvSource};
use exl3::cache::{capacity, hybrid_planes, paged_len, paged_planes, quant_planes, whole_planes, LayerPlanes};
use exl3::config::{ArchKind, Config, ConfigOverrides};
use exl3::gdn::{chunk_layout, gdn_rewind, Rewind, CHUNK, MIN_SEQ};
use exl3::json::{Json, Num};
use exl3::linear::{pad128, LinearError, LinearPlan, PruneError, Weights};
use exl3::model::{head_alternative, plan_load, taps, PartKind};
use exl3::moe::{all_fused, buckets, expert_slots, fused_parts, shared_expert, ExpertPlan, SharedExpert};
use exl3::sorted::{insert, lower};
use exl3::tensors::{find, TensorInfo};

fn info(name: &str, rows: i64, cols: i64, depth: i64) -> TensorInfo {
    TensorInfo { name: name.to_string(), rows, cols, depth }
}

fn n(k: i64) -> Json {
    Json::Number(Num::Unsigned(k as u64))
}

fn config(arch: &str, more: Vec<(&str, Json)>) -> Config {
    let mut m = vec![
        ("architectures", Json::List(vec![Json::Text(arch.to_string())])),
        ("vocab_size", n(1000)),
        ("hidden_size", n(256)),
        ("intermediate_size", n(128)),
        ("num_hidden_layers", n(4)),
        ("num_attention_heads", n(8)),
        ("num_key_value_heads", n(2)),
        ("head_dim", n(64)),
        ("rms_norm_eps", Json::Number(Num::Real("1e-6".to_string()))),
    ];
    m.extend(more);
    let raw = Json::Object(m.into_iter().map(|(k, v)| (k.to_string(), v)).collect());
    let prep = Json::Object(vec![]);
    assert!(Config::is_readable(&raw, &prep));
    Config::from_json(raw, &prep, &ConfigOverrides { max_seq_len: None }).ok().unwrap()
}

fn exl3(out_features: i64, bias: bool) -> LinearPlan {
    LinearPlan {
        key: "l".to_string(),
        in_features: 128,
        out_features,
        in_unpadded: 128,
        out_unpadded: out_features,
        trim_padded_out: false,
        weights: Weights::Exl3 { k: 4, mcg: false, mul1: true, bias },
    }
}

#[test]
fn division_rounds_to_zero_and_folding_does_not() {
    assert_eq!((divide(7, 2), divide(-7, 2), divide(7, -2), divide(-7, -2)), (3, -3, -3, 3));
    assert_eq!((fold(7, 3), fold(-7, 3), fold(7, -3), fold(-7, -3)), (1, 2, -2, -1));
    assert_eq!(fold(i64::MIN, -1), 0);
}

#[test]
fn layers_are_padded_to_blocks() {
    assert_eq!((pad128(0), pad128(1), pad128(128), pad128(129)), (0, 128, 128, 256));
}

#[test]
fn linear_layers_find_their_weights() {
    let t = vec![
        info("a.trellis", 8, 16, 64),
        info("a.suh", 128, 1, 1),
        info("a.svh", 256, 1, 1),
        info("a.mul1", 1, 1, 1),
        info("b.weight", 100, 200, 1),
        info("b.bias", 100, 1, 1),
        info("c.trellis", 1, 1, 1),
        info("d.trellis", 1, 1, 1),
        info("d.suh", 1, 1, 1),
    ];
    let p = LinearPlan::load(&t, "a", None, 128, 250, true).ok().unwrap();
    assert_eq!((p.in_features, p.out_features, p.out_unpadded), (128, 256, 250));
    assert_eq!(p.weights, Weights::Exl3 { k: 4, mcg: false, mul1: true, bias: false });
    assert_eq!(p.exl3_parts(), Some((4, false, true)));
    assert_eq!(p.output_cut(), Some(250));
    let p = LinearPlan::load(&t, "x", Some("b"), 200, 100, false).ok().unwrap();
    assert_eq!(p.key, "b");
    assert!(matches!(p.weights, Weights::Fp16 { pad: true, bias: true }));
    assert_eq!(p.exl3_parts(), None);
    assert_eq!((p.input_pad(200), p.input_pad(256)), (56, 0));
    assert_eq!(p.output_cut(), None);
    assert!(!p.unpacks_for(1000));
    match LinearPlan::load(&t, "c", None, 1, 1, false) {
        Err(LinearError::PackedScales { key }) => assert_eq!(key, "c"),
        _ => panic!("another result"),
    }
    match LinearPlan::load(&t, "d", None, 1, 1, false) {
        Err(LinearError::Missing { name }) => assert_eq!(name, "d.svh"),
        _ => panic!("another result"),
    }
    assert!(matches!(LinearPlan::load(&t, "x", Some("y"), 1, 1, false), Err(LinearError::NoTensors)));
}

#[test]
fn large_batches_unpack_small_layers() {
    assert!(exl3(256, false).unpacks_for(145));
    assert!(!exl3(256, false).unpacks_for(144));
    assert!(!exl3(32896, false).unpacks_for(145));
}

#[test]
fn pruning_keeps_whole_blocks() {
    let p = exl3(1024, false).prune_out(&vec![(130, 140), (0, 1), (900, 5000)]).ok().unwrap();
    let want: Vec<i64> = (0..256).chain(896..1024).collect();
    assert_eq!(p.ids, want);
    let tiles: Vec<i64> = (0..16).chain(56..64).collect();
    assert_eq!(p.tiles, tiles);
    assert_eq!(exl3(1024, false).prune_out(&vec![]).err(), Some(PruneError::Empty));
    assert_eq!(exl3(1024, true).prune_out(&vec![(0, 9)]).err(), Some(PruneError::Biased));
    let mut plain = exl3(1024, false);
    plain.weights = Weights::Fp16 { pad: false, bias: false };
    assert_eq!(plain.prune_out(&vec![(0, 9)]).err(), Some(PruneError::NotExl3));
}

#[test]
fn tensors_are_found_by_name() {
    let t = vec![info("a", 1, 1, 1), info("b", 2, 1, 1), info("b", 3, 1, 1)];
    assert_eq!(find(&t, "b"), Some(1));
    assert_eq!(find(&t, "c"), None);
}

#[test]
fn sorted_lists_stay_sorted() {
    let mut v = vec![1, 5];
    assert!(insert(&mut v, 3));
    assert!(!insert(&mut v, 3));
    assert_eq!(v, vec![1, 3, 5]);
    assert_eq!((lower(&v, 0), lower(&v, 3), lower(&v, 4), lower(&v, 9)), (0, 1, 2, 3));
}

#[test]
fn choices_are_sorted_into_experts() {
    let flat = vec![2, 0, 1, 2, 2, 0];
    assert_eq!(expert_slots(&flat, 2), vec![0, 3, 4]);
    assert_eq!(buckets(&flat, 2, 4), vec![vec![0, 2], vec![1], vec![0, 1, 2], vec![]]);
    let total: usize = buckets(&flat, 2, 4).iter().map(|b| b.len()).sum();
    assert_eq!(total, flat.len());
}

fn expert() -> ExpertPlan {
    let layer = |i: i64, o: i64| LinearPlan { in_features: i, ..exl3(o, false) };
    ExpertPlan { gate: layer(128, 256), up: layer(128, 256), down: layer(256, 128) }
}

#[test]
fn experts_are_fused_where_they_are_alike() {
    let part = (4, false, true);
    assert_eq!(fused_parts(&vec![expert(), expert()], 128, 256, true), Some((part, part, part)));
    assert_eq!(fused_parts(&vec![expert(), expert()], 128, 256, false), None);
    assert_eq!(fused_parts(&vec![expert()], 128, 200, true), None);
    assert_eq!(fused_parts(&vec![], 128, 256, true), None);
    let mut odd = expert();
    odd.up.weights = Weights::Exl3 { k: 3, mcg: false, mul1: true, bias: false };
    assert_eq!(fused_parts(&vec![expert(), odd], 128, 256, true), None);
    assert!(all_fused(&vec![None, Some(true)]));
    assert!(!all_fused(&vec![Some(true), Some(false)]));
    assert!(!all_fused(&vec![None]));
}

#[test]
fn shared_experts_stand_under_either_key() {
    let t = vec![info("m.shared_expert.down_proj.weight", 1, 1, 1)];
    match shared_expert(&t, "m", 8) {
        SharedExpert::At { key } => assert_eq!(key, "m.shared_expert"),
        _ => panic!("another result"),
    }
    assert!(matches!(shared_expert(&t, "m", 0), SharedExpert::Absent));
    assert!(matches!(shared_expert(&t, "x", 8), SharedExpert::Missing));
    let t = vec![info("m.shared_experts.down_proj.trellis", 1, 1, 1)];
    match shared_expert(&t, "m", 8) {
        SharedExpert::At { key } => assert_eq!(key, "m.shared_experts"),
        _ => panic!("another result"),
    }
}

#[test]
fn plain_stacks_are_read_in_order() {
    let c = config("LlamaForCausalLM", vec![]);
    let parts = plan_load(&c);
    let keys: Vec<&str> = parts.iter().map(|p| p.key.as_str()).collect();
    assert_eq!(
        keys,
        vec![
            "model.embed_tokens",
            "model.layers.0",
            "model.layers.1",
            "model.layers.2",
            "model.layers.3",
            "model.norm",
            "lm_head",
        ]
    );
    assert_eq!(parts[0].kind, PartKind::Embedding);
    assert_eq!(parts[1].kind, PartKind::Block { sparse: false });
    assert_eq!((parts[4].layer, parts[5].layer), (3, -1));
}

#[test]
fn hybrid_stacks_are_read_by_their_schedule() {
    let c = config("Qwen3_5ForCausalLM", vec![]);
    let kinds: Vec<PartKind> = plan_load(&c).iter().map(|p| p.kind).collect();
    assert_eq!(kinds[1..5], [
        PartKind::Hybrid { full: false },
        PartKind::Hybrid { full: false },
        PartKind::Hybrid { full: false },
        PartKind::Hybrid { full: true },
    ]);
}

fn hyper() -> Config {
    config(
        "Qwen4ExpForConditionalGeneration",
        vec![
            ("moe_intermediate_size", n(32)),
            ("num_experts", n(4)),
            ("num_experts_per_tok", n(2)),
            ("indexer_n_heads", n(3)),
            ("indexer_head_dim", n(5)),
            ("indexer_budget", n(7)),
            ("ple_layer_ids", Json::List(vec![n(2)])),
        ],
    )
}

#[test]
fn injections_are_read_with_their_layer() {
    let parts = plan_load(&hyper());
    let kinds: Vec<(PartKind, i64)> = parts.iter().map(|p| (p.kind, p.layer)).collect();
    assert!(kinds.contains(&(PartKind::Ple, 1)));
    assert!(kinds.contains(&(PartKind::HyperConnected { full: true }, 3)));
    assert!(kinds.iter().any(|k| k.0 == PartKind::NGram));
    assert!(kinds.iter().any(|k| k.0 == PartKind::Mixer));
}

#[test]
fn tied_heads_use_the_embedding() {
    let mut c = config("LlamaForCausalLM", vec![("tie_word_embeddings", Json::Bool(true))]);
    assert_eq!(head_alternative(&c, &vec![]).as_deref(), Some("model.embed_tokens"));
    assert_eq!(head_alternative(&c, &vec![info("lm_head.trellis", 1, 1, 1)]), None);
    c.tie_word_embeddings = false;
    assert_eq!(head_alternative(&c, &vec![]), None);
    assert_eq!(taps(4, &vec![3, 1, 9, -1]), vec![1, 3]);
}

#[test]
fn caches_have_planes_for_each_layer() {
    let c = config("LlamaForCausalLM", vec![]);
    assert_eq!(capacity(3), 768);
    assert_eq!((paged_len(0), paged_len(1), paged_len(512)), ((0, 0), (1, 256), (2, 512)));
    assert_eq!(paged_planes(&c, 9), vec![LayerPlanes::Kv { num_pages: 9, kv_heads: 2, head_dim: 64 }; 4]);
    let packed = LayerPlanes::KvQuant { num_pages: 9, k_words: 32, v_words: 16, groups: 4 };
    assert_eq!(quant_planes(&c, 9, 8, 4), Some(vec![packed; 4]));
    assert_eq!(quant_planes(&c, 9, 9, 4), None);
    assert_eq!(quant_planes(&c, 9, 8, 1), None);
}

#[test]
fn hybrid_caches_have_recurrent_states() {
    let c = config("Qwen3_5ForCausalLM", vec![]);
    let gdn = LayerPlanes::Gdn {
        slots: 2,
        fdim: 8192,
        conv_len: 4 + 5,
        states: 6,
        num_v_heads: 32,
        k_head_dim: 128,
        v_head_dim: 128,
    };
    let kv = LayerPlanes::Kv { num_pages: 9, kv_heads: 2, head_dim: 64 };
    assert_eq!(hybrid_planes(&c, 9, 2, 5, (0, 0)), Some(vec![gdn, gdn, gdn, kv]));
    let packed = LayerPlanes::KvQuant { num_pages: 9, k_words: 16, v_words: 16, groups: 4 };
    assert_eq!(hybrid_planes(&c, 9, 2, 5, (4, 4)), Some(vec![gdn, gdn, gdn, packed]));
    assert_eq!(hybrid_planes(&c, 9, 2, 5, (1, 4)), None);
}

#[test]
fn sparse_attention_caches_are_in_one_piece() {
    let planes = whole_planes(&hyper(), 100);
    assert_eq!(planes.len(), 4);
    assert_eq!(planes[3], LayerPlanes::Whole { max_len: 100, kv_heads: 2, head_dim: 64, indexer_dim: 5 });
    assert!(matches!(planes[0], LayerPlanes::Gdn { slots: 1, conv_len: 4, states: 1, .. }));
}

#[test]
fn attention_paths_depend_on_the_cache() {
    let packed = |words: i64, scratch: bool| KvSource::PagedQuant { words, groups: 4, scratch };
    assert_eq!(choose_path(KvSource::NoCache, false, 128, 1), AttnPath::Single);
    assert_eq!(choose_path(KvSource::Paged, true, 128, 1), AttnPath::Paged);
    assert_eq!(choose_path(packed(16, true), false, 128, 2), AttnPath::Scratch);
    assert_eq!(choose_path(packed(16, false), false, 128, 2), AttnPath::Online);
    assert_eq!(choose_path(packed(16, false), false, 128, 1), AttnPath::Window);
    assert_eq!(choose_path(packed(16, false), true, 128, 2), AttnPath::Window);
    assert_eq!(choose_path(packed(12, false), false, 128, 2), AttnPath::Window);
    assert_eq!(choose_path(packed(16, false), false, 64, 2), AttnPath::Window);
    assert_eq!((query_width(8, 64, false), query_width(8, 64, true)), (512, 1024));
}

#[test]
fn recurrent_passes_are_chunked() {
    assert_eq!((CHUNK, MIN_SEQ), (64, 128));
    assert_eq!((chunk_layout(0), chunk_layout(1), chunk_layout(64), chunk_layout(130)), ((0, 0), (1, 63), (1, 0), (3, 62)));
}

#[test]
fn rejected_drafts_rewind_the_recurrence() {
    assert_eq!(gdn_rewind(4, 5, 2, 5), Rewind { snapshot: Some(2), window: 2 });
    assert_eq!(gdn_rewind(4, 5, 5, 5), Rewind { snapshot: None, window: 5 });
}

#[test]
fn architectures_are_told_apart() {
    assert_eq!(config("Glm4ForCausalLM", vec![]).arch_kind, ArchKind::Glm4);
}
