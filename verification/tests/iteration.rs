use exl3::generator::engine::{finished_texts, Admission, Attempt, Commit, Generator, Iteration, Task};
use exl3::generator::job::{EosReason, Heard, JobSpec, Stage, StreamEvent};

/// A host whose model says one more than the last token, and whose tokens read as letters.
fn round(g: &mut Generator, names: &mut Vec<&'static str>) -> Vec<StreamEvent> {
    let mut events = Vec::new();
    let mut it = Iteration::new();
    loop {
        match it.next(g) {
            Task::Go => {}
            Task::UsedUp => panic!("used up"),
            Task::Admission { admission } => {
                names.push("admission");
                match admission {
                    Admission::Admitted { event, .. } => events.extend(event),
                    Admission::Refused { event } => events.push(event),
                    _ => panic!("not a decision"),
                }
            }
            Task::Feed { j, chunk } => {
                names.push("feed");
                assert_eq!(g.next_chunk(j), Some((chunk.start, chunk.end)));
                events.push(it.fed(g).unwrap());
                assert!(g.next_chunk(j) != Some((chunk.start, chunk.end)));
            }
            Task::Guide { .. } => names.push("guide"),
            Task::Decode { rows, attempt } => {
                names.push("decode");
                assert!(it.fed(g).is_none());
                if attempt == Attempt::Plain {
                    for j in rows {
                        let next = *g.sequence(j).last().unwrap() + 1;
                        let mut c = Commit::new(j, vec![next]);
                        while let Some((h, w)) = c.next(g) {
                            let read = |(a, b): (usize, usize)| -> String {
                                g.tokens(j, a, b).iter().map(|t| (b'a' + *t as u8) as char).collect()
                            };
                            let heard = Heard { prefix: read(w.prefix), text: read(w.text), without_last: String::new() };
                            events.push(c.heard(g, h, &heard));
                        }
                    }
                    it.took();
                }
            }
            Task::Perform { .. } => names.push("perform"),
            Task::Over => return events,
        }
    }
}

#[test]
fn a_round_goes_through_its_phases() {
    let mut g = Generator::new(16, 4, 256, (0, 0), false);
    let mut names = Vec::new();
    assert!(round(&mut g, &mut names).is_empty());
    assert_eq!(names, vec!["perform", "perform"]);
    g.enqueue(JobSpec::new(vec![0; 300], 3), String::new(), vec![]);
    g.enqueue(JobSpec::new(vec![1], 2), String::new(), vec![]);
    names.clear();
    let events = round(&mut g, &mut names);
    assert_eq!(names, vec!["admission", "admission", "feed", "decode", "perform", "perform"]);
    let stages: Vec<Stage> = events.iter().map(|e| e.stage).collect();
    assert_eq!(
        stages,
        vec![Stage::Started, Stage::Started, Stage::Prefill { done: 256, total: 300 }, Stage::Streaming]
    );
    assert_eq!(events[3].serial, 1);
    assert_eq!(events[3].token, Some(2));
}

#[test]
fn rounds_run_every_job_to_its_end() {
    let mut g = Generator::new(4, 4, 256, (0, 0), false);
    g.enqueue(JobSpec::new(vec![0; 300], 3), String::new(), vec![]);
    g.enqueue(JobSpec::new(vec![1], 2), String::new(), vec![]);
    g.enqueue(JobSpec::new(vec![1; 2000], 2), String::new(), vec![]);
    let mut events = Vec::new();
    let mut rounds: usize = 0;
    while g.num_remaining() > 0 {
        events.extend(round(&mut g, &mut Vec::new()));
        rounds += 1;
        assert!(rounds < 20);
    }
    let texts = finished_texts(&events);
    assert_eq!(texts, vec![(0, "bcd".to_string()), (1, "cd".to_string()), (2, String::new())]);
    let refused = events.iter().find(|e| e.serial == 2).unwrap();
    assert_eq!(refused.eos_reason, Some(EosReason::TooLarge { need: 8, pool: 4 }));
}

#[test]
fn guided_rows_come_before_the_others() {
    let mut g = Generator::new(16, 4, 256, (0, 0), false);
    let mut spec = JobSpec::new(vec![1], 2);
    spec.negative = Some(vec![3]);
    g.enqueue(spec, String::new(), vec![]);
    g.enqueue(JobSpec::new(vec![1], 2), String::new(), vec![]);
    let mut names = Vec::new();
    round(&mut g, &mut names);
    assert_eq!(names, vec!["admission", "admission", "guide", "decode", "perform", "perform"]);
}

#[test]
fn attempts_are_made_until_one_takes_the_rows() {
    let mut g = Generator::new(16, 4, 256, (0, 0), false);
    g.enable_ngram(2, 3);
    g.enqueue(JobSpec::new(vec![1], 2), String::new(), vec![]);
    let mut names = Vec::new();
    round(&mut g, &mut names);
    assert_eq!(names, vec!["admission", "decode", "decode", "perform", "perform"]);
}
