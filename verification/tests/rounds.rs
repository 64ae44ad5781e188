use exl3::draft_conf::labels;
use exl3::filter::trie::VocabTrie;
use exl3::generator::engine::{finished_texts, Admission, Attempt, Commit, Drafting, Generator, Pass, Priming, RowWork};
use exl3::generator::grammar::compile_grammar;
use exl3::generator::job::{EosReason, Heard, JobSpec, Stage, StreamEvent};
use std::sync::Arc;

fn start(g: &mut Generator, spec: JobSpec) {
    g.enqueue(spec, String::new(), vec![]);
    assert!(g.can_admit());
    assert!(matches!(g.admit_one(), Admission::Admitted { .. }));
    let j = g.num_active() - 1;
    while let Some((_, end)) = g.next_chunk(j) {
        g.chunk_done(j, end);
    }
}

fn plain() -> Generator {
    Generator::new(16, 4, 256, (0, 0), false)
}

fn hybrid() -> Generator {
    Generator::new(16, 4, 256, (0, 0), true)
}

#[test]
fn rounds_fall_back_to_plain_decoding() {
    let mut g = plain();
    start(&mut g, JobSpec::new(vec![1, 2], 9));
    assert_eq!(g.attempts(&vec![0]), vec![Attempt::Plain]);
    assert_eq!(g.attempts(&vec![]), vec![]);
    let mut g = plain();
    g.enable_ngram(2, 3);
    g.enable_draft(16, 3);
    start(&mut g, JobSpec::new(vec![1, 2], 9));
    assert_eq!(g.attempts(&vec![0]), vec![Attempt::NGram, Attempt::Model, Attempt::Plain]);
    let trie = Arc::new(VocabTrie::build(vec!["a".to_string()], 1));
    let mut filtered = JobSpec::new(vec![1, 2], 9);
    filtered.filters.push(compile_grammar("root ::= \"a\"+", &trie).ok().unwrap());
    start(&mut g, filtered);
    assert_eq!(g.attempts(&vec![0, 1]), vec![Attempt::Plain]);
    assert!(!g.can_take_best(&vec![0, 1], &vec![true, true]));
    assert!(g.can_take_best(&vec![0], &vec![true]));
    assert!(!g.can_take_best(&vec![0], &vec![false]));
}

#[test]
fn drafts_are_verified_at_the_length_of_the_shortest() {
    let mut g = plain();
    g.enable_ngram(2, 3);
    start(&mut g, JobSpec::new(vec![1, 2, 3, 1, 2], 9));
    start(&mut g, JobSpec::new(vec![4, 5, 4, 5], 9));
    let drafts = g.ngram_drafts(&vec![0, 1], &vec![(0, 2), (0, 2)]);
    assert_eq!(drafts, vec![vec![3, 1, 2], vec![4, 5]]);
    let v = g.verification(&vec![0, 1], drafts, Attempt::NGram).unwrap();
    assert_eq!(v.q_len, 3);
    assert_eq!(v.drafts, vec![vec![3, 1], vec![4, 5]]);
    assert_eq!(v.batch.feed, vec![2, 3, 1, 5, 4, 5]);
    assert_eq!(v.batch.seqlens, vec![4, 3]);
    assert_eq!(v.pass, Pass::Logits { history: false });
    let short = g.ngram_drafts(&vec![0, 1], &vec![(0, 2), (1, 2)]);
    assert!(g.verification(&vec![0, 1], short, Attempt::NGram).is_none());
}

#[test]
fn passes_suit_the_speculator() {
    let mut g = hybrid();
    g.enable_mtp(2);
    start(&mut g, JobSpec::new(vec![1, 2], 9));
    let v = |a: Attempt| g.verification(&vec![0], vec![vec![7, 8]], a).unwrap().pass;
    assert_eq!(v(Attempt::Model), Pass::Hidden);
    assert_eq!(v(Attempt::NGram), Pass::Logits { history: true });
    assert_eq!(
        g.row_work(0, Attempt::Model, 2, 2),
        RowWork { rewind: Some((0, 2, 3)), ingest: None, sync: Some((1, 1)) }
    );
    assert!(g.needs_plain(&vec![0], &vec![false]));
    assert!(!g.needs_plain(&vec![0], &vec![true]));
    assert_eq!(g.unprimed(&vec![0]), vec![0]);
    assert!(matches!(g.priming(0, false), Priming::Nothing));
    match g.priming(0, true) {
        Priming::Last { token, place, block } => assert_eq!((token, place, block), (2, 1, vec![0])),
        _ => panic!("another priming"),
    }
    g.set_primed(0);
    assert!(g.unprimed(&vec![0]).is_empty());
}

#[test]
fn drafters_have_a_window_for_some_slots() {
    let mut g = hybrid();
    g.enable_dflash2(4, 0, 1);
    start(&mut g, JobSpec::new(vec![1, 2], 9));
    start(&mut g, JobSpec::new(vec![1, 2], 9));
    assert_eq!(g.window_slots(&vec![0]), Some(vec![0]));
    assert_eq!(g.window_slots(&vec![0, 1]), None);
    let v = g.verification(&vec![0], vec![vec![7, 8, 9]], Attempt::Model).unwrap();
    assert_eq!((v.pass, v.q_len), (Pass::Taps, 4));
    assert_eq!(g.row_work(0, Attempt::Model, 1, 3).ingest, Some((0, 1, 1)));
    assert_eq!(g.row_work(1, Attempt::Model, 1, 3).ingest, None);
}

#[test]
fn chunks_carry_their_tokens_and_pages() {
    let mut g = hybrid();
    g.enable_mtp(2);
    g.enqueue(JobSpec::new((0..300).collect(), 9), String::new(), vec![]);
    assert!(matches!(g.admit_one(), Admission::Admitted { .. }));
    let c = g.chunk(0).unwrap();
    assert_eq!((c.start, c.end, c.tokens.len(), c.slot, c.window), (0, 256, 256, 0, None));
    assert_eq!(c.block, vec![0, 1]);
    assert_eq!(c.pass, Pass::Hidden);
    g.chunk_done(0, 256);
    assert_eq!(g.chunk(0).unwrap().tokens, (256..299).collect::<Vec<i64>>());
    g.chunk_done(0, 299);
    assert!(g.chunk(0).is_none());
}

#[test]
fn draft_models_are_primed_with_the_prompt() {
    let mut g = plain();
    g.enable_draft(16, 3);
    start(&mut g, JobSpec::new(vec![5, 6, 7], 9));
    match g.priming(0, false) {
        Priming::Prompt { tokens, block } => assert_eq!((tokens, block), (vec![5, 6, 7], vec![0])),
        _ => panic!("another priming"),
    }
    let s = g.singles(&vec![0], false);
    assert_eq!((s[0].token, s[0].place, s[0].block.clone()), (7, 2, vec![0]));
}

#[test]
fn guided_jobs_feed_both_contexts() {
    let mut g = plain();
    let mut spec = JobSpec::new(vec![1, 2], 9);
    spec.negative = Some(vec![8, 9]);
    start(&mut g, spec);
    assert_eq!(g.negative_prompt(0).0, vec![8]);
    g.prime_guidance(0);
    let (own, neg) = g.guidance(0);
    assert_eq!((own.token, own.place), (2, 1));
    assert_eq!((neg.token, neg.place), (9, 1));
    assert_ne!(own.block, neg.block);
}

fn heard() -> Heard {
    Heard { prefix: String::new(), text: "x".to_string(), without_last: String::new() }
}

#[test]
fn rounds_stop_at_the_end_of_a_request() {
    let mut g = plain();
    let mut spec = JobSpec::new(vec![1, 2], 9);
    spec.stop_tokens.insert(5);
    start(&mut g, spec);
    let mut c = Commit::new(0, vec![4, 5, 6]);
    let mut events = vec![];
    while let Some((h, _)) = c.next(&mut g) {
        events.push(c.heard(&mut g, h, &heard()));
    }
    assert_eq!(events.len(), 2);
    assert_eq!(events[1].eos_reason, Some(EosReason::StopToken));
    assert_eq!(events.iter().map(|e| e.token.unwrap()).collect::<Vec<i64>>(), vec![4, 5]);
}

#[test]
fn texts_are_filed_by_serial() {
    let done = |serial: u64, text: &str| {
        let mut e = StreamEvent::refused(serial, EosReason::Cancelled);
        e.full_text = Some(text.to_string());
        e
    };
    let events = vec![done(3, "c"), StreamEvent::plain(1, Stage::Started), done(1, "a"), done(2, "b"), done(1, "d")];
    let want: Vec<(u64, String)> =
        [(1, "a"), (1, "d"), (2, "b"), (3, "c")].iter().map(|(s, t)| (*s, t.to_string())).collect();
    assert_eq!(finished_texts(&events), want);
}

#[test]
fn confidences_are_labelled_to_the_first_miss() {
    assert_eq!(labels(4, 2), vec![true, true, false]);
    assert_eq!(labels(2, 2), vec![true, true]);
    assert_eq!(labels(0, 0), Vec::<bool>::new());
}

#[test]
fn tokens_that_are_not_allowed_violate_the_grammar() {
    let pieces: Vec<String> = ["a", "b", "ab", "c"].iter().map(|s| s.to_string()).collect();
    let trie = Arc::new(VocabTrie::build(pieces, 4));
    for tok in 0..4 {
        let mut f = compile_grammar("root ::= \"a\" \"b\" \"c\"", &trie).ok().unwrap();
        let allowed = f.mask().is_allowed(tok as usize);
        f.feed(tok);
        // a violated filter allows nothing any more
        assert_eq!(f.mask().count() > 0, allowed);
    }
}

#[test]
fn speculators_draft_where_they_can() {
    let mut g = plain();
    assert!(g.can_guide());
    start(&mut g, JobSpec::new(vec![1, 2], 9));
    assert!(matches!(g.drafting(&vec![0], &vec![true]), Drafting::Nothing));
    let mut g = plain();
    g.enable_draft(16, 3);
    assert!(!g.can_guide());
    assert_eq!(g.draft_tokens(), 3);
    start(&mut g, JobSpec::new(vec![1, 2], 9));
    let Drafting::Model { singles } = g.drafting(&vec![0], &vec![false]) else { panic!("the draft model drafts") };
    assert_eq!((singles[0].token, singles[0].place, singles[0].block.len()), (2, 1, 1));
    let mut g = hybrid();
    g.enable_mtp(2);
    start(&mut g, JobSpec::new(vec![1, 2], 9));
    assert!(matches!(g.drafting(&vec![0], &vec![false]), Drafting::Plain));
    let Drafting::Head { singles } = g.drafting(&vec![0], &vec![true]) else { panic!("the head drafts") };
    let own = g.pack(&vec![0], &vec![Vec::new()]).block;
    assert_eq!((singles[0].token, singles[0].place, singles[0].block.clone()), (2, 1, own));
    let mut g = hybrid();
    g.enable_dflash2(8, 0, 1);
    start(&mut g, JobSpec::new(vec![1, 2], 9));
    start(&mut g, JobSpec::new(vec![3, 4], 9));
    let Drafting::Window { slots, anchors } = g.drafting(&vec![0], &vec![false]) else { panic!("a window drafts") };
    assert_eq!((slots, anchors), (vec![0], vec![2]));
    assert!(matches!(g.drafting(&vec![0, 1], &vec![false, false]), Drafting::Nothing));
}
