use exl3::async_gen::Fanout;
use exl3::generator::batch::max_pages;
use exl3::generator::emission::{find_stop, find_text, floor_char_boundary, head, hold_back, prefix_len, show, strip, tail};
use exl3::generator::engine::{allow_mask, mm_after, mm_before, Admission, Effect, Generator, MmRefusal};
use exl3::generator::grammar::compile_grammar;
use exl3::generator::job::{EosReason, Heard, Job, JobSpec, MmFinish, Stage, StreamEvent};
use exl3::generator::verify::{accept_prefix, confirms, trim_drafts};
use exl3::filter::trie::VocabTrie;
use exl3::paged::{chain_hash, PageError};
use std::sync::Arc;

/// A vocabulary in which token `t` reads as one letter, from "a" on.
fn decode(tokens: &[i64]) -> String {
    tokens.iter().map(|t| (b'a' + (*t % 26) as u8) as char).collect()
}

fn let_in(g: &mut Generator) -> (Vec<Effect>, Option<StreamEvent>) {
    assert!(g.can_admit());
    match g.admit_one() {
        Admission::Admitted { effects, event } => (effects, event),
        _ => panic!("not admitted"),
    }
}

fn stops(g: &mut Generator) -> bool {
    assert!(g.can_admit());
    matches!(g.admit_one(), Admission::Stop)
}

fn prefill(g: &mut Generator, j: usize) -> Vec<(i64, i64)> {
    let mut out = vec![];
    while let Some((start, end)) = g.next_chunk(j) {
        out.push((start, end));
        let ev = g.chunk_done(j, end);
        assert!(matches!(ev.stage, Stage::Prefill { done, .. } if done == end));
    }
    out
}

/// Feeds one token to a job, and hears what it reads as.
fn step(g: &mut Generator, j: usize, next: i64) -> StreamEvent {
    let h = g.take_token(j, next);
    let w = g.windows(j, h);
    let text = |r: (usize, usize)| decode(&g.tokens(j, r.0, r.1));
    let heard = Heard {
        prefix: text(w.prefix),
        text: text(w.text),
        without_last: match w.without_last {
            Some(r) => text(r),
            None => String::new(),
        },
    };
    g.finish_event(j, h, &heard)
}

#[test]
fn a_request_streams_to_its_last_token() {
    let mut g = Generator::new(8, 4, 256, (0, 0), false);
    let serial = g.enqueue(JobSpec::new(vec![1, 2, 3], 3), String::new(), vec![]);
    assert_eq!((serial, g.num_remaining(), g.num_active()), (0, 1, 0));
    let (effects, event) = let_in(&mut g);
    assert_eq!(effects, vec![]);
    assert!(matches!(event.unwrap().stage, Stage::Started));
    assert!(stops(&mut g));
    assert_eq!(prefill(&mut g, 0), vec![(0, 2)]);
    assert_eq!(g.decode_rows(), (vec![], vec![0]));
    let b = g.pack(&vec![0], &vec![vec![]]);
    assert_eq!((b.feed, b.seqlens, b.slots, b.block, b.max_pages), (vec![3], vec![2], vec![0], vec![0], 1));
    let a = step(&mut g, 0, 7);
    assert_eq!((a.text.as_str(), a.eos, a.token), ("h", false, Some(7)));
    step(&mut g, 0, 8);
    let e = step(&mut g, 0, 9);
    assert!(e.eos);
    assert_eq!(e.eos_reason, Some(EosReason::MaxNewTokens));
    assert_eq!(e.full_text.as_deref(), Some("hij"));
    assert_eq!(e.text, "j");
    assert_eq!(e.new_tokens, 3);
    assert_eq!(g.decode_rows(), (vec![], vec![]));
    assert_eq!(g.reap(), vec![]);
    assert_eq!(g.num_remaining(), 0);
}

#[test]
fn stop_tokens_end_a_request() {
    let mut g = Generator::new(8, 4, 256, (0, 0), false);
    let mut spec = JobSpec::new(vec![1], 10);
    spec.stop_tokens.insert(5);
    spec.min_new = 2;
    g.enqueue(spec, String::new(), vec![]);
    let_in(&mut g);
    // too early
    assert!(!step(&mut g, 0, 5).eos);
    assert!(!step(&mut g, 0, 5).eos);
    let e = step(&mut g, 0, 5);
    assert_eq!(e.eos_reason, Some(EosReason::StopToken));
}

#[test]
fn stop_strings_are_cut_off() {
    let mut g = Generator::new(8, 4, 256, (0, 0), false);
    let mut spec = JobSpec::new(vec![1], 10);
    spec.stop_strings.push("cd".to_string());
    g.enqueue(spec, String::new(), vec![]);
    let_in(&mut g);
    assert_eq!(step(&mut g, 0, 0).text, "");
    assert_eq!(step(&mut g, 0, 1).text, "a");
    assert_eq!(step(&mut g, 0, 2).text, "b");
    let e = step(&mut g, 0, 3);
    assert_eq!(e.eos_reason, Some(EosReason::StopString));
    assert_eq!(e.full_text.as_deref(), Some("ab"));
    assert_eq!(e.text, "");
}

#[test]
fn loops_end_a_request() {
    let mut g = Generator::new(8, 4, 256, (0, 0), false);
    let mut spec = JobSpec::new(vec![1], 100);
    spec.stop_on_loop = Some((8, 2));
    g.enqueue(spec, String::new(), vec![]);
    let_in(&mut g);
    let mut fed = 0;
    loop {
        let e = step(&mut g, 0, fed % 3);
        fed += 1;
        if e.eos {
            assert_eq!(e.eos_reason, Some(EosReason::LoopDetected));
            break;
        }
        assert!(fed < 100);
    }
    assert_eq!(fed, 8);
}

#[test]
fn filters_end_a_request() {
    let trie = Arc::new(VocabTrie::build(vec!["a".to_string(), "b".to_string()], 2));
    let mut g = Generator::new(8, 4, 256, (0, 0), false);
    let mut spec = JobSpec::new(vec![1], 100);
    spec.filters.push(compile_grammar("root ::= \"a\" \"b\"", &trie).ok().unwrap());
    g.enqueue(spec, String::new(), vec![]);
    let_in(&mut g);
    assert!(!g.may_speculate(&vec![0]));
    assert_eq!(g.filter_mask(0, 3), Some(vec![true, false, false]));
    step(&mut g, 0, 0);
    assert_eq!(g.filter_mask(0, 2), Some(vec![false, true]));
    assert_eq!(step(&mut g, 0, 1).eos_reason, Some(EosReason::FilterCompleted));
}

#[test]
fn cancelled_requests_leave() {
    let mut g = Generator::new(8, 1, 256, (0, 0), false);
    let a = g.enqueue(JobSpec::new(vec![1], 9), String::new(), vec![]);
    let b = g.enqueue(JobSpec::new(vec![1], 9), String::new(), vec![]);
    let_in(&mut g);
    assert_eq!(g.serial(0), a);
    // the batch is full
    assert!(stops(&mut g));
    g.cancel(b);
    assert_eq!(g.num_remaining(), 1);
    g.cancel(a);
    assert_eq!(g.decode_rows(), (vec![], vec![]));
    g.reap();
    assert_eq!(g.num_remaining(), 0);
}

#[test]
fn requests_that_never_fit_are_refused() {
    let mut g = Generator::new(2, 4, 256, (0, 0), false);
    g.enqueue(JobSpec::new(vec![1; 300], 300), String::new(), vec![]);
    assert!(g.can_admit());
    match g.admit_one() {
        Admission::Refused { event } => {
            assert!(event.eos);
            let reason = event.eos_reason.unwrap();
            assert_eq!(reason, EosReason::TooLarge { need: 3, pool: 2 });
            assert!(reason.text().starts_with("prompt + max_new needs 768 tokens but the KV pool holds 512"));
            assert!(reason.text().ends_with("(raise VRAM or lower cache_size / max_tokens)"));
        }
        _ => panic!("not refused"),
    }
    assert_eq!(g.num_remaining(), 0);
}

#[test]
fn requests_wait_for_pages() {
    let mut g = Generator::new(3, 4, 256, (0, 0), false);
    g.enqueue(JobSpec::new(vec![1; 300], 100), String::new(), vec![]);
    g.enqueue(JobSpec::new(vec![1; 300], 100), String::new(), vec![]);
    let_in(&mut g);
    assert!(stops(&mut g));
    g.cancel(0);
    g.reap();
    let_in(&mut g);
    assert_eq!(g.num_active(), 1);
}

#[test]
fn long_prompts_are_prefilled_in_aligned_chunks() {
    let mut g = Generator::new(8, 4, 600, (0, 0), false);
    g.enqueue(JobSpec::new(vec![1; 1300], 5), String::new(), vec![]);
    let_in(&mut g);
    let chunks = prefill(&mut g, 0);
    assert_eq!(chunks[0], (0, 768));
    assert_eq!(chunks.last().unwrap().1, 1299);
    assert!(chunks.iter().all(|(s, e)| e > s && e - s <= 768));
    assert!(chunks[..chunks.len() - 1].iter().all(|(_, e)| e % 256 == 0));
}

#[test]
fn shared_prefixes_are_not_prefilled_again() {
    let mut g = Generator::new(8, 4, 256, (0, 0), false);
    g.enable_prefix_cache();
    let prompt: Vec<i64> = (0..600).collect();
    g.enqueue(JobSpec::new(prompt.clone(), 4), String::new(), vec![]);
    let_in(&mut g);
    prefill(&mut g, 0);
    assert_eq!(g.hash_complete_pages(), vec![]);
    g.enqueue(JobSpec::new(prompt, 4), String::new(), vec![]);
    let_in(&mut g);
    assert_eq!(g.next_chunk(1), Some((512, 599)));
    assert_eq!(g.prefix_stats(), (512, 1200));
    let b = g.pack(&vec![0], &vec![vec![4, 5]]);
    assert_eq!(b.feed, vec![599, 4, 5]);
    assert_eq!(b.block, vec![0, 1, 2]);
}

#[test]
fn evicted_pages_go_to_the_host_and_come_back() {
    let mut g = Generator::new(2, 1, 256, (0, 0), false);
    g.enable_cpu_cache(1024);
    let first: Vec<i64> = (0..256).collect();
    let mut one = first.clone();
    one.push(7);
    g.enqueue(JobSpec::new(one.clone(), 2), String::new(), vec![]);
    let_in(&mut g);
    prefill(&mut g, 0);
    g.hash_complete_pages();
    g.cancel(0);
    g.reap();
    // another request takes every page
    g.enqueue(JobSpec::new((1000..1300).collect(), 2), String::new(), vec![]);
    let (effects, _) = let_in(&mut g);
    assert_eq!(effects, vec![Effect::CopyOut { page: 0, slot: 0 }]);
    g.cancel(1);
    g.reap();
    g.enqueue(JobSpec::new(one, 2), String::new(), vec![]);
    let (effects, _) = let_in(&mut g);
    assert!(effects.iter().any(|e| matches!(e, Effect::CopyIn { slot: 0, .. })));
    assert_eq!(g.next_chunk(0), None);
    assert_eq!(g.cpu_cache_stats(), (1, 1));
}

#[test]
fn hybrid_requests_hold_a_slot() {
    let mut g = Generator::new(8, 2, 256, (0, 0), true);
    g.enqueue(JobSpec::new(vec![1, 2], 4), String::new(), vec![]);
    let (effects, _) = let_in(&mut g);
    assert_eq!(effects, vec![Effect::ResetSlot { slot: 0 }]);
    g.enqueue(JobSpec::new(vec![1, 2], 4), String::new(), vec![]);
    let (effects, _) = let_in(&mut g);
    assert_eq!(effects, vec![Effect::ResetSlot { slot: 1 }]);
    prefill(&mut g, 0);
    prefill(&mut g, 1);
    assert_eq!(g.pack(&vec![0, 1], &vec![vec![], vec![]]).slots, vec![0, 1]);
    g.cancel(0);
    g.reap();
    g.enqueue(JobSpec::new(vec![1, 2], 4), String::new(), vec![]);
    let (effects, _) = let_in(&mut g);
    assert_eq!(effects, vec![Effect::ResetSlot { slot: 0 }]);
}

#[test]
fn recurrent_states_are_checkpointed_at_page_ends() {
    let mut g = Generator::new(8, 2, 256, (0, 0), true);
    g.enable_prefix_cache();
    let prompt: Vec<i64> = (0..300).collect();
    g.enqueue(JobSpec::new(prompt.clone(), 4), String::new(), vec![]);
    let_in(&mut g);
    let (_, end) = g.next_chunk(0).unwrap();
    assert_eq!(end, 256);
    g.chunk_done(0, end);
    let key = u128::from_le_bytes(chain_hash(None, &prompt[..256]));
    assert_eq!(g.hash_complete_pages(), vec![Effect::SaveState { slot: 0, key }]);
    assert_eq!(g.hash_complete_pages(), vec![]);
    g.enqueue(JobSpec::new(prompt, 4), String::new(), vec![]);
    let (effects, _) = let_in(&mut g);
    assert!(effects.contains(&Effect::RestoreState { slot: 1, key }));
    assert_eq!(g.next_chunk(1), Some((256, 299)));
}

#[test]
fn the_checkpoint_used_longest_ago_goes() {
    let mut g = Generator::new(16, 2, 256, (0, 0), true);
    g.enable_prefix_cache();
    g.set_checkpoint_cap(2);
    let key = |p: &[i64]| u128::from_le_bytes(chain_hash(None, &p[..256]));
    let prompts: Vec<Vec<i64>> = (0..3).map(|k| (1000 * k..1000 * k + 300).collect()).collect();
    let mut run = |p: &Vec<i64>| {
        let serial = g.enqueue(JobSpec::new(p.clone(), 4), String::new(), vec![]);
        let (mut effects, _) = let_in(&mut g);
        let (_, end) = g.next_chunk(0).unwrap();
        g.chunk_done(0, end);
        effects.extend(g.hash_complete_pages());
        g.cancel(serial);
        g.reap();
        effects
    };
    run(&prompts[0]);
    run(&prompts[1]);
    // the first one is used again, so the second one goes
    assert!(run(&prompts[0]).contains(&Effect::RestoreState { slot: 0, key: key(&prompts[0]) }));
    assert!(run(&prompts[2]).contains(&Effect::DropState { key: key(&prompts[1]) }));
    assert!(run(&prompts[0]).contains(&Effect::RestoreState { slot: 0, key: key(&prompts[0]) }));
}

#[test]
fn draft_pools_have_their_own_pages() {
    let mut g = Generator::new(8, 2, 256, (0, 0), false);
    assert_eq!(g.enable_draft(1, 0), None);
    g.enqueue(JobSpec::new(vec![1; 300], 4), String::new(), vec![]);
    assert!(g.can_admit());
    match g.admit_one() {
        Admission::Failed { error, .. } => assert_eq!(error, PageError::Exhausted { need: 2, free: 1 }),
        _ => panic!("admitted"),
    }
    g.enqueue(JobSpec::new(vec![1; 30], 4), String::new(), vec![]);
    let_in(&mut g);
}

#[test]
fn speculators_need_a_history() {
    let mut g = Generator::new(8, 2, 256, (0, 0), true);
    assert_eq!(g.enable_ngram(2, 3), Some(4));
    let mut g = Generator::new(8, 2, 256, (0, 0), true);
    assert_eq!(g.enable_mtp(0), Some(5));
    assert_eq!(g.enable_cache_quant(8, 8), Some(5));
    assert_eq!(g.enable_cache_quant(8, 8), None);
    assert_eq!(g.resize_pool(16), Some(5));
    assert_eq!(g.resize_pool(16), None);
    assert_eq!(g.num_pages(), 16);
    let mut g = Generator::new(8, 2, 256, (0, 0), true);
    assert_eq!(g.enable_dflash2(8, 3, 4), 4);
    assert_eq!(g.enable_dflash2(8, 30, 4), 8);
}

#[test]
fn drafts_are_tallied() {
    let mut g = Generator::new(8, 2, 256, (0, 0), false);
    g.enable_ngram(2, 4);
    g.enqueue(JobSpec::new(vec![1, 2, 3], 9), String::new(), vec![]);
    let_in(&mut g);
    prefill(&mut g, 0);
    g.tally(0, 3, 4);
    assert_eq!(g.spec_stats(), (2, 4));
    assert_eq!(g.ngram_stats(), (2, 4));
}

#[test]
fn long_runs_are_queued_again() {
    let mut g = Generator::new(8, 2, 256, (0, 0), false);
    g.enable_requeue(2);
    g.enqueue(JobSpec::new(vec![1], 7), String::new(), vec![]);
    let_in(&mut g);
    step(&mut g, 0, 0);
    step(&mut g, 0, 1);
    g.reap();
    assert_eq!(g.num_active(), 1);
    assert!(!step(&mut g, 0, 2).eos);
    g.reap();
    assert_eq!((g.num_remaining(), g.num_active()), (1, 0));
    let (_, event) = let_in(&mut g);
    assert!(event.is_none());
    prefill(&mut g, 0);
    // the budget counts from where the job was let in again
    step(&mut g, 0, 3);
    step(&mut g, 0, 4);
    g.reap();
    assert_eq!(g.num_active(), 1);
    step(&mut g, 0, 5);
    g.reap();
    assert_eq!(g.num_active(), 0);
    let_in(&mut g);
    prefill(&mut g, 0);
    let e = step(&mut g, 0, 6);
    assert_eq!(e.full_text.as_deref(), Some("abcdefg"));
    assert_eq!(e.eos_reason, Some(EosReason::MaxNewTokens));
}

#[test]
fn a_healed_token_is_not_in_the_budget() {
    let mut g = Generator::new(8, 2, 256, (0, 0), false);
    g.enable_requeue(1);
    let mut spec = JobSpec::new(vec![3, 1], 9);
    spec.token_healing = true;
    g.enqueue(spec, "b".to_string(), vec![1, 4]);
    let_in(&mut g);
    prefill(&mut g, 0);
    step(&mut g, 0, 1);
    g.end_healing(0);
    step(&mut g, 0, 2);
    g.reap();
    assert_eq!(g.num_active(), 1);
    step(&mut g, 0, 3);
    g.reap();
    assert_eq!((g.num_remaining(), g.num_active()), (1, 0));
    let_in(&mut g);
    prefill(&mut g, 0);
    step(&mut g, 0, 2);
    g.reap();
    assert_eq!(g.num_active(), 1);
    step(&mut g, 0, 3);
    g.reap();
    assert_eq!(g.num_active(), 0);
}

#[test]
fn guided_requests_hold_two_contexts() {
    let mut g = Generator::new(8, 2, 256, (0, 0), false);
    let mut spec = JobSpec::new(vec![1, 2], 4);
    spec.negative = Some(vec![9, 9, 9]);
    g.enqueue(spec, String::new(), vec![]);
    let_in(&mut g);
    prefill(&mut g, 0);
    assert_eq!(g.decode_rows(), (vec![0], vec![]));
    assert_eq!(g.prime_guidance(0), Some(2));
    assert_eq!(g.prime_guidance(0), None);
    g.guide(0, 5);
    step(&mut g, 0, 5);
}

#[test]
fn healed_tokens_are_generated_again() {
    let mut g = Generator::new(8, 2, 256, (0, 0), false);
    let mut spec = JobSpec::new(vec![3, 1], 2);
    spec.token_healing = true;
    g.enqueue(spec, "b".to_string(), vec![1, 4]);
    let_in(&mut g);
    prefill(&mut g, 0);
    assert_eq!(g.heal_mask(0, 6), Some(vec![false, true, false, false, true, false]));
    // the healed token comes back as it was, and is not shown
    assert_eq!(step(&mut g, 0, 1).text, "");
    g.end_healing(0);
    assert_eq!(g.heal_mask(0, 6), None);
    assert_eq!(step(&mut g, 0, 2).text, "c");
    let e = step(&mut g, 0, 3);
    assert_eq!(e.full_text.as_deref(), Some("cd"));
}

#[test]
fn allow_masks_name_tokens() {
    assert_eq!(allow_mask(4, &vec![2, 0]), vec![true, false, true, false]);
}

#[test]
fn n_gram_drafts_continue_an_earlier_match() {
    let job = Job::new(JobSpec::new(vec![1, 2, 3, 4, 5, 1, 2, 3], 9), 0, String::new(), vec![]);
    assert_eq!(job.get_ngram_draft(0, 3, 2, 2), vec![4, 5]);
    let job = Job::new(JobSpec::new(vec![1, 2, 3, 4, 5], 9), 0, String::new(), vec![]);
    // the match is too short
    assert!(job.get_ngram_draft(2, 3, 2, 2).is_empty());
    assert_eq!(job.get_ngram_draft(2, 4, 9, 2), vec![5]);
    assert_eq!((job.pages_held(), job.gen_count(), job.gen_reserve(), job.pages_needed()), (0, 0, 10, 1));
    assert!(!job.prefill_done());
}

#[test]
fn batches_are_as_wide_as_their_widest_job() {
    let mut a = Job::new(JobSpec::new(vec![1], 9), 0, String::new(), vec![]);
    let mut b = Job::new(JobSpec::new(vec![2], 9), 1, String::new(), vec![]);
    a.block = vec![5];
    b.block = vec![6, 7];
    let jobs = vec![a, b];
    assert_eq!(max_pages(&jobs, &vec![0]), 1);
    let p = exl3::generator::batch::pack(&jobs, &vec![0, 1], &vec![vec![8], vec![9]]);
    assert_eq!(p.block, vec![5, 0, 6, 7]);
    assert_eq!(p.feed, vec![1, 8, 2, 9]);
}

#[test]
fn verified_drafts_are_taken_to_the_first_miss() {
    assert_eq!(accept_prefix(&vec![1, 2, 3], &vec![1, 2, 9, 4]), vec![1, 2, 9]);
    assert_eq!(accept_prefix(&vec![1, 2], &vec![1, 2, 3]), vec![1, 2, 3]);
    assert_eq!(accept_prefix(&vec![], &vec![7]), vec![7]);
    assert!(confirms(&vec![1, 2], &vec![1]));
    assert!(!confirms(&vec![1, 2], &vec![1, 3]));
    assert!(!confirms(&vec![1], &vec![1, 2]));
    let mut drafts = vec![vec![1, 2, 3], vec![4, 5]];
    assert_eq!(trim_drafts(&mut drafts, 7), 2);
    assert_eq!(drafts, vec![vec![1, 2], vec![4, 5]]);
    let mut drafts = vec![vec![1i64, 2], Vec::<i64>::new()];
    assert_eq!(trim_drafts(&mut drafts, 7), 0);
    assert_eq!(drafts, vec![vec![1i64, 2], Vec::<i64>::new()]);
}

#[test]
fn texts_are_cut_at_characters() {
    assert_eq!(floor_char_boundary("aé", 2), 1);
    assert_eq!(floor_char_boundary("aé", 9), 3);
    assert_eq!(prefix_len("aéb", "aèb"), 1);
    assert_eq!(find_text("abcab", "ab"), Some(0));
    assert_eq!(find_text("abc", "x"), None);
    assert_eq!(find_text("abc", ""), Some(0));
    assert_eq!((head("aé", 1), tail("aé", 1)), ("a".to_string(), "é".to_string()));
    assert_eq!(strip("abc", "ab").as_deref(), Some("c"));
    assert_eq!(strip("abc", "b"), None);
}

#[test]
fn text_that_may_become_a_stop_string_is_held_back() {
    let stops = vec!["STOP".to_string(), "é".to_string()];
    assert_eq!(hold_back(&stops), 3);
    assert_eq!(hold_back(&vec![]), 0);
    assert_eq!(find_stop("ab é STOP", &stops), Some(3));
    assert_eq!(find_stop("ab", &stops), None);
    assert_eq!(show("hello", 3, ""), "he");
    assert_eq!(show("hello!", 3, "he"), "l");
    assert_eq!(show("hé", 1, ""), "h");
    assert_eq!(show("hi", 3, ""), "");
}

#[test]
fn reasons_have_texts() {
    assert_eq!(EosReason::StopString.text(), "stop_string");
    assert_eq!(EosReason::StopToken.text(), "stop_token");
    assert_eq!(EosReason::MaxNewTokens.text(), "max_new_tokens");
    assert_eq!(EosReason::LoopDetected.text(), "loop_detected");
    assert_eq!(EosReason::FilterCompleted.text(), "filter_completed");
    assert_eq!(EosReason::Cancelled.text(), "cancelled");
}

#[test]
fn image_requests_need_a_hybrid_pool() {
    let mut g = Generator::new(8, 1, 256, (0, 0), false);
    assert_eq!(g.mm_admit(10, 10).unwrap_err(), MmRefusal::NotHybrid);
    let mut g = Generator::new(2, 1, 256, (0, 0), true);
    assert_eq!(g.mm_admit(600, 10).unwrap_err(), MmRefusal::NoPages { free: 2, need: 3 });
    let (slot, block) = g.mm_admit(100, 10).unwrap();
    assert_eq!((slot, block.len()), (0, 1));
    assert_eq!(g.mm_admit(100, 10).unwrap_err(), MmRefusal::NoSlot);
    g.mm_release(slot, &block);
    assert!(g.mm_admit(100, 10).is_ok());
    assert_eq!(g.mm_chunk(0, 300), Some(256));
    assert_eq!(g.mm_chunk(256, 300), Some(299));
    assert_eq!(g.mm_chunk(299, 300), None);
    assert_eq!(mm_before(true, true), Some(MmFinish::Cancelled));
    assert_eq!(mm_before(false, true), Some(MmFinish::Stop));
    assert_eq!(mm_before(false, false), None);
    assert_eq!(mm_after(true, 1, 9), Some(MmFinish::Stop));
    assert_eq!(mm_after(false, 9, 9), Some(MmFinish::Length));
    assert_eq!(mm_after(false, 8, 9), None);
}

#[test]
fn events_go_to_whoever_waits() {
    let mut f = Fanout::new();
    f.register(1);
    f.register(2);
    f.register(2);
    f.forget(2);
    assert!(f.is_waiting(1) && !f.is_waiting(2));
    let plain = |s: u64| StreamEvent::plain(s, Stage::Streaming);
    let last = |s: u64| StreamEvent::refused(s, EosReason::Cancelled);
    assert_eq!(f.dispatch(&vec![plain(1), plain(2), last(1), plain(1)]), vec![true, false, true, false]);
    assert!(!f.is_waiting(1));
}
