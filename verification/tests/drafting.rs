use exl3::config::ArchKind;
use exl3::dflash2::{sees, DFlash2Batched, DFlash2Cache, DFlash2Error, DFlash2Params, Shift};
use exl3::draft::{check_draft, pack_blocks, prime_len, step_places, DraftRefusal};
use exl3::draft_conf::pick_bin;
use exl3::draft_head::{DraftVocab, GIVE_UP_AFTER, REBUILD_AFTER, SPECIAL_TAIL};
use exl3::infer::{
    cache_len, cache_mode_bits, can_capture, choose_cache, drafted_len, plain_len, prefill_chunks, CacheChoice,
    PlainRun, SpecRun, Step, Turn,
};
use exl3::json::{Json, Num};
use exl3::linear::{LinearPlan, PruneError, Weights};
use exl3::mtp::{draft_places, has_head, prime_steps, sync_steps, FillStep};
use exl3::tensors::TensorInfo;

fn n(k: i64) -> Json {
    Json::Number(Num::Unsigned(k as u64))
}

fn object(members: Vec<(&str, Json)>) -> Json {
    Json::Object(members.into_iter().map(|(k, v)| (k.to_string(), v)).collect())
}

fn head(out_features: i64) -> LinearPlan {
    LinearPlan {
        key: "lm_head".to_string(),
        in_features: 128,
        out_features,
        in_unpadded: 128,
        out_unpadded: out_features,
        trim_padded_out: false,
        weights: Weights::Exl3 { k: 4, mcg: false, mul1: false, bias: false },
    }
}

#[test]
fn draft_models_must_match() {
    assert_eq!(check_draft(ArchKind::Qwen35, 5, 5), Err(DraftRefusal::Recurrent));
    assert_eq!(check_draft(ArchKind::Qwen3, 5, 6), Err(DraftRefusal::Vocabulary { draft: 5, target: 6 }));
    assert_eq!(check_draft(ArchKind::Qwen3, 5, 5), Ok(()));
    assert_eq!((prime_len(0), prime_len(1), prime_len(9)), (0, 0, 8));
    assert_eq!(pack_blocks(&vec![vec![1], vec![2, 3]]), (vec![1, 0, 2, 3], 2));
    assert_eq!(pack_blocks(&vec![]).1, 1);
    assert_eq!(step_places(&vec![4, 9], 2), vec![6, 11]);
}

#[test]
fn confidence_comes_from_the_nearest_bin_below() {
    assert_eq!(pick_bin(&vec![], 3), None);
    assert_eq!(pick_bin(&vec![2, 5, 9], 7), Some(5));
    assert_eq!(pick_bin(&vec![2, 5, 9], 5), Some(5));
    assert_eq!(pick_bin(&vec![4, 6], 1), Some(4));
}

#[test]
fn draft_heads_hold_common_and_special_tokens() {
    assert_eq!((SPECIAL_TAIL, REBUILD_AFTER, GIVE_UP_AFTER), (512, 4, 16));
    let mut v = DraftVocab::new(2000);
    assert_eq!(v.token_at(7), 7);
    assert!(v.enable_draft_head(256, &vec![700], &head(2048)).is_ok());
    // 256 frequent ones, the block of 700, and the tail from 1488 on
    let at = |p: usize| v.token_at(p);
    assert_eq!((at(0), at(255), at(256), at(383)), (0, 255, 640, 767));
    assert_eq!(at(384), 1408);
    let m = v.padding().unwrap();
    assert_eq!(m.len(), 384 + 640);
    assert_eq!(m.iter().filter(|x| **x).count(), 48);
}

#[test]
fn draft_heads_learn_what_is_emitted() {
    let mut v = DraftVocab::new(8192);
    v.enable_draft_head(128, &vec![], &head(8192)).ok().unwrap();
    assert_eq!(v.token_at(128), 7680);
    // three blocks are not enough to build it again
    v.adapt_draft_head(&vec![1000, 2000, 3000], Some(128), &head(8192)).ok().unwrap();
    assert_eq!(v.token_at(128), 7680);
    v.adapt_draft_head(&vec![4000], Some(128), &head(8192)).ok().unwrap();
    assert_eq!(v.token_at(128), 896);
    assert!((0..1152).any(|p| v.token_at(p) == 4000));
}

#[test]
fn draft_heads_that_miss_too_often_are_given_up() {
    let big = 128 * 128 * 8;
    let mut v = DraftVocab::new(big);
    v.enable_draft_head(128, &vec![], &head(big)).ok().unwrap();
    let mut block = 10;
    for _ in 0..=GIVE_UP_AFTER {
        let tokens: Vec<i64> = (0..4).map(|i| (block + i) * 128).collect();
        block += 4;
        v.adapt_draft_head(&tokens, Some(128), &head(big)).ok().unwrap();
    }
    // the whole vocabulary is drafted from again
    assert_eq!(v.token_at(5000), 5000);
    v.refresh_draft_head(Some(128), &vec![], &head(big)).ok().unwrap();
    assert_eq!(v.token_at(5000), 5000);
}

#[test]
fn draft_heads_need_a_coded_layer() {
    let mut v = DraftVocab::new(2000);
    let mut plain = head(2048);
    plain.weights = Weights::Fp16 { pad: false, bias: false };
    assert_eq!(v.enable_draft_head(256, &vec![], &plain), Err(PruneError::NotExl3));
    assert_eq!(v.refresh_draft_head(None, &vec![], &plain), Ok(()));
    // whatever its width
    plain.out_features = 300;
    assert_eq!(v.enable_draft_head(256, &vec![], &plain), Err(PruneError::NotExl3));
    // and a cut outside the vocabulary takes the head away, whatever the layer
    assert_eq!(v.enable_draft_head(256, &vec![], &head(2048)), Ok(()));
    assert_eq!(v.token_at(256), 1408);
    assert_eq!(v.enable_draft_head(2000, &vec![], &head(70)), Ok(()));
    assert_eq!(v.token_at(256), 256);
}

#[test]
fn drafter_configs_are_read() {
    let full = |more: Vec<(&str, Json)>| {
        let mut d = vec![("mask_token_id", n(5)), ("selector_rank", n(6)), ("selector_top_k", n(7))];
        d.extend(more);
        object(vec![("dflash_config", object(d))])
    };
    let p = DFlash2Params::from_config(&full(vec![])).ok().unwrap();
    assert_eq!((p.block_size, p.conv_kernel_size, p.conv_group_size, p.sliding_window), (8, 2, 16, 2048));
    assert_eq!(p.check_taps(), Err(DFlash2Error::NoTaps));
    let p = DFlash2Params::from_config(&full(vec![("target_layer_ids", Json::List(vec![n(1)])), ("block_size", n(3))]))
        .ok()
        .unwrap();
    assert_eq!(p.check_taps(), Ok(()));
    assert_eq!(p.block_input(9), vec![9, 5, 5]);
    assert_eq!(p.bytes_per_slot(2, 8, 3), 4 * 2560 * 2 * 8 * 3);
    let refused = |d: Json| DFlash2Params::from_config(&d).err().unwrap();
    assert_eq!(refused(object(vec![])), DFlash2Error::NoConfig);
    let part = |keys: &[&str]| {
        object(vec![("dflash_config", object(keys.iter().map(|k| (*k, n(1))).collect()))])
    };
    assert_eq!(refused(part(&[])), DFlash2Error::NoMaskToken);
    assert_eq!(refused(part(&["mask_token_id"])), DFlash2Error::NoSelectorRank);
    assert_eq!(refused(part(&["mask_token_id", "selector_rank"])), DFlash2Error::NoSelectorTopK);
}

#[test]
fn drafter_windows_slide() {
    let mut c = DFlash2Cache::new(100);
    assert_eq!((c.cap(), c.is_empty()), (612, true));
    let f = c.fold(600, 0, 100).unwrap();
    assert_eq!((f.skip, f.n, f.base, f.at, f.shift), (0, 600, 0, 0, None));
    let f = c.fold(20, 600, 100).unwrap();
    assert_eq!((f.n, f.base, f.at), (20, 600, 100));
    assert_eq!(f.shift, Some(Shift { drop: 500, keep: 100 }));
    assert_eq!((c.start(), c.len(), c.end_pos()), (500, 120, 620));
    assert!(c.fold(0, 620, 100).is_none());
    // more than fits: only the last places are written
    let f = c.fold(700, 620, 100).unwrap();
    assert_eq!((f.skip, f.n, f.base, f.at), (88, 612, 708, 0));
    assert_eq!(c.end_pos(), 1320);
    c.reset();
    assert_eq!((c.start(), c.len()), (0, 0));
    assert!(sees(10, 5, 6));
    assert!(!sees(10, 4, 6));
    assert!(sees(10, 0, 0));
}

#[test]
fn drafter_windows_are_kept_for_each_slot() {
    let mut b = DFlash2Batched::new(100, 0);
    assert!(b.cache(0).is_some());
    assert!(b.cache(2).is_none());
    b.ingest(2, 5, 0);
    assert_eq!(b.cache(2).unwrap().len(), 5);
    assert!(b.cache(1).is_none());
    b.release(2);
    assert_eq!(b.cache(2).unwrap().len(), 0);
}

#[test]
fn heads_are_primed_one_place_behind() {
    let t = |name: &str| vec![TensorInfo { name: name.to_string(), rows: 1, cols: 1, depth: 1 }];
    assert!(has_head(&t("mtp.fc.trellis")) && has_head(&t("mtp.fc.weight")) && !has_head(&t("mtp.fc")));
    assert_eq!((exl3::mtp::cache_len(5), exl3::mtp::cache_len(5000)), (4096, 5000));
    assert_eq!(draft_places(&vec![7, 9], 2), vec![7, 9, 8, 10]);
    let s = |token: i64, place: i64, hidden: Option<usize>| FillStep { token, place, hidden };
    assert_eq!(prime_steps(&vec![4, 5], 10), vec![s(4, 10, None), s(5, 11, Some(0))]);
    assert_eq!(sync_steps(&vec![4, 5], 10), vec![s(4, 11, Some(0)), s(5, 12, Some(1))]);
}

#[test]
fn cache_modes_are_named() {
    for (mode, bits) in [("fp16", 0), (" F16 ", 0), ("", 0), ("q8", 8), ("8", 8), ("Q6", 6), ("4", 4), ("q3", 3), ("2", 2)] {
        assert_eq!(cache_mode_bits(mode), Ok(bits), "{mode}");
    }
    assert_eq!(cache_mode_bits(" q5x"), Err("Q5X".to_string()));
}

#[test]
fn cache_lengths_hold_the_request() {
    assert_eq!(plain_len(None, 10, 20), 38);
    assert_eq!(plain_len(Some(0), 10, 20), 38);
    assert_eq!(plain_len(Some(5), 10, 20), 18);
    assert_eq!(plain_len(Some(100), 10, 20), 100);
    assert_eq!(drafted_len(None, 10, 20, 3), 41);
    assert_eq!(drafted_len(Some(5), 10, 20, 3), 41);
    assert_eq!(drafted_len(Some(50), 10, 20, 3), 50);
    assert_eq!(cache_len(Some(7), 9, 20), 9);
}

#[test]
fn caches_suit_the_architecture() {
    assert_eq!(choose_cache(ArchKind::Qwen4Exp, 8), CacheChoice::Whole);
    assert_eq!(choose_cache(ArchKind::Qwen35, 8), CacheChoice::Hybrid);
    assert_eq!(choose_cache(ArchKind::Llama, 8), CacheChoice::Quant);
    assert_eq!(choose_cache(ArchKind::Llama, 0), CacheChoice::Plain);
    assert!(can_capture(false, CacheChoice::Plain, false, false));
    assert!(!can_capture(false, CacheChoice::Plain, true, false));
    assert!(!can_capture(true, CacheChoice::Plain, false, false));
    assert!(!can_capture(false, CacheChoice::Quant, false, false));
}

#[test]
fn prefills_are_cut_into_chunks() {
    assert_eq!(prefill_chunks(10, 4), vec![(0, 4), (4, 4), (8, 2)]);
    assert_eq!(prefill_chunks(10, 0), vec![(0, 10)]);
    assert!(prefill_chunks(0, 0).is_empty());
}

/// A model whose next token is a function of the tokens before it.
fn model(seq: &[i64]) -> i64 {
    seq.iter().enumerate().map(|(i, t)| (i as i64 + 1) * (t + 3)).sum::<i64>() % 23
}

fn plain(prompt: &[i64], max_new: usize, eos: &Vec<i64>) -> Vec<i64> {
    let mut seq = prompt.to_vec();
    let mut out = vec![];
    let mut run = PlainRun::new(max_new, false);
    loop {
        let next = model(&seq);
        match run.step(next, eos) {
            Step::Stop => break,
            Step::Feed { emit } => {
                assert!(emit);
                out.push(next);
                seq.push(next);
            }
        }
    }
    assert_eq!(run.generated(), out.len());
    out
}

fn drafted(prompt: &[i64], max_new: usize, eos: &Vec<i64>, luck: usize) -> Vec<i64> {
    let mut seq = prompt.to_vec();
    let mut out = vec![];
    let mut run = SpecRun::new(model(&seq), seq.len() as i64, max_new);
    loop {
        match run.turn(3, 1000, eos) {
            Turn::Stop => break,
            Turn::Last { emit } => {
                out.push(emit);
                break;
            }
            Turn::Draft { n } => {
                assert_eq!(run.place(), seq.len() as i64);
                seq.push(run.next());
                // a drafter that is right `luck` times, then wrong
                let mut guess = seq.clone();
                let mut draft = vec![];
                for i in 0..n as usize {
                    let t = if i < luck { model(&guess) } else { 99 };
                    draft.push(t);
                    guess.push(t);
                }
                let verified: Vec<i64> = (0..=draft.len()).map(|i| model(&[&seq[..], &draft[..i]].concat())).collect();
                let r = run.round(&draft, &verified, eos);
                assert_eq!(r.keep as usize, r.committed.len());
                out.extend(r.emit);
                seq.extend(&r.committed[..r.committed.len() - 1]);
            }
        }
    }
    out
}

#[test]
fn drafting_changes_no_output() {
    for eos in [vec![], vec![4], vec![0, 11]] {
        for max_new in [0, 1, 2, 5, 17] {
            for luck in 0..4 {
                let want = plain(&[1, 2, 3], max_new, &eos);
                assert_eq!(drafted(&[1, 2, 3], max_new, &eos, luck), want, "{eos:?} {max_new} {luck}");
            }
        }
    }
}

#[test]
fn runs_end_at_the_cache() {
    let mut run = SpecRun::new(5, 10, 100);
    assert_eq!(run.turn(3, 11, &vec![]), Turn::Last { emit: 5 });
    assert_eq!(run.turn(3, 11, &vec![]), Turn::Stop);
    let mut run = SpecRun::new(5, 10, 100);
    assert_eq!(run.turn(8, 14, &vec![]), Turn::Draft { n: 3 });
    let r = run.round(&vec![1, 2], &vec![1, 7, 8], &vec![]);
    assert_eq!((r.emit, r.keep, r.committed), (vec![5, 1], 2, vec![1, 7]));
    assert_eq!((run.next(), run.place(), run.counts()), (7, 12, (2, 1)));
}

#[test]
fn held_back_tokens_are_fed_unseen() {
    let mut run = PlainRun::new(1, true);
    assert_eq!(run.step(3, &vec![3]), Step::Feed { emit: false });
    assert_eq!(run.step(4, &vec![3]), Step::Feed { emit: true });
    assert_eq!(run.step(4, &vec![3]), Step::Stop);
    assert_eq!(run.generated(), 1);
}
