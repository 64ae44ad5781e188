//! How the tokens of a round become part of a request, and its text.
use vstd::prelude::*;
use crate::generator::engine::{decodes, runs, with_job, Generator};
use crate::generator::job::{
    finished, gen_count_of, hits_of, job_ok, windows_of, with_token, Heard, Hits, JobState, StreamEvent, Told, Windows,
};

verus! {

/// The tokens that a round adds to a job, taken one after the other until one ends it.
pub struct Commit {
    j: usize,
    tokens: Vec<i64>,
    at: usize,
    ended: bool,
}

/// Where a commit stands.
pub struct Committing {
    pub j: int,
    pub tokens: Seq<i64>,
    /// How many tokens are taken.
    pub at: int,
    /// Whether one of them ended the job.
    pub ended: bool,
}

/// What becomes of a job, and what is told of it, where tokens are added until one ends it and
/// `heard` is what each is heard as.
pub open spec fn committed(s: JobState, tokens: Seq<i64>, heard: Seq<Heard>, budget: usize) -> (JobState, Seq<Told>)
    decreases tokens.len(),
{
    if tokens.len() == 0 {
        (s, seq![])
    } else {
        let (t, told) = finished(with_token(s, tokens[0]), hits_of(s, tokens[0]), heard[0], budget);
        if told.eos {
            (t, seq![told])
        } else {
            let (u, rest) = committed(t, tokens.drop_first(), heard.drop_first(), budget);
            (u, seq![told] + rest)
        }
    }
}

/// A round adds a prefix of its tokens to the job, all of them where none ends it, and tells of
/// each; nothing is told after the end.
pub proof fn rounds_add_a_prefix(s: JobState, tokens: Seq<i64>, heard: Seq<Heard>, budget: usize)
    ensures
        ({
            let (t, told) = committed(s, tokens, heard, budget);
            &&& told.len() <= tokens.len()
            &&& t.seq == s.seq + tokens.take(told.len() as int)
            &&& forall|i: int| 0 <= i < told.len() ==> (#[trigger] told[i]).token == Some(tokens[i]) && told[i].serial
                == s.serial
            &&& forall|i: int| 0 <= i < told.len() - 1 ==> !(#[trigger] told[i]).eos
            &&& told.len() < tokens.len() ==> told.len() > 0 && told.last().eos
            &&& told.len() > 0 && told.last().eos ==> t.done
        }),
    decreases tokens.len(),
{
    let (t, told) = committed(s, tokens, heard, budget);
    if tokens.len() > 0 {
        let (u, first) = finished(with_token(s, tokens[0]), hits_of(s, tokens[0]), heard[0], budget);
        assert(u.seq == s.seq.push(tokens[0]));
        assert(first.token == Some(tokens[0]));
        if first.eos {
            assert(t.seq =~= s.seq + tokens.take(1));
        } else {
            let rest = tokens.drop_first();
            rounds_add_a_prefix(u, rest, heard.drop_first(), budget);
            let more = committed(u, rest, heard.drop_first(), budget).1;
            assert(told =~= seq![first] + more);
            assert(t.seq =~= s.seq + tokens.take(told.len() as int)) by {
                assert(tokens.take(told.len() as int) =~= seq![tokens[0]] + rest.take(more.len() as int));
            }
            assert forall|i: int| 0 <= i < told.len() implies (#[trigger] told[i]).token == Some(tokens[i])
                && told[i].serial == s.serial by {
                if i > 0 {
                    assert(told[i] == more[i - 1]);
                    assert(more[i - 1].token == Some(rest[i - 1]));
                }
            }
            assert forall|i: int| 0 <= i < told.len() - 1 implies !(#[trigger] told[i]).eos by {
                if i > 0 {
                    assert(told[i] == more[i - 1]);
                    assert(!more[i - 1].eos);
                }
            }
            if more.len() > 0 {
                assert(told.last() == more.last());
            }
        }
    } else {
        assert(t.seq =~= s.seq + tokens.take(0));
    }
}

/// A job never generates more tokens than it may, and ends with the last of them: a job that
/// goes on may still generate one.
pub proof fn jobs_stop_at_their_length(s: JobState, tokens: Seq<i64>, heard: Seq<Heard>, budget: usize)
    requires
        job_ok(s),
        decodes(s),
    ensures
        ({
            let (t, told) = committed(s, tokens, heard, budget);
            &&& t.max_new == s.max_new
            &&& gen_count_of(t) <= s.max_new || gen_count_of(t) <= 1
            &&& !t.done ==> t.new_tokens == 0 || gen_count_of(t) < s.max_new
            &&& !t.done ==> t.new_tokens == s.new_tokens + tokens.len()
        }),
{
    lemma_length(s, tokens, heard, budget);
}

proof fn lemma_length(s: JobState, tokens: Seq<i64>, heard: Seq<Heard>, budget: usize)
    requires
        !s.done,
        s.heal_offset <= 1,
        s.new_tokens == 0 || gen_count_of(s) < s.max_new,
        s.max_new <= usize::MAX - 1024,
    ensures
        ({
            let (t, told) = committed(s, tokens, heard, budget);
            &&& t.max_new == s.max_new
            &&& gen_count_of(t) <= s.max_new || gen_count_of(t) <= 1
            &&& !t.done ==> t.new_tokens == 0 || gen_count_of(t) < s.max_new
            &&& !t.done ==> t.new_tokens == s.new_tokens + tokens.len()
        }),
    decreases tokens.len(),
{
    if tokens.len() > 0 {
        let h = hits_of(s, tokens[0]);
        let (u, told) = finished(with_token(s, tokens[0]), h, heard[0], budget);
        assert(u.new_tokens == s.new_tokens + 1 && u.max_new == s.max_new && u.heal_offset == s.heal_offset);
        if !told.eos {
            lemma_length(u, tokens.drop_first(), heard.drop_first(), budget);
        }
    }
}

impl Commit {
    pub closed spec fn state(&self) -> Committing {
        Committing { j: self.j as int, tokens: self.tokens@, at: self.at as int, ended: self.ended }
    }

    pub fn new(j: usize, tokens: Vec<i64>) -> (r: Commit)
        ensures
            r.state() == (Committing { j: j as int, tokens: tokens@, at: 0, ended: false }),
    {
        Commit { j, tokens, at: 0, ended: false }
    }

    /// Take the next token, and say what is to be heard of it; none where the job ended, or no
    /// token is left.
    pub fn next(&self, g: &mut Generator) -> (r: Option<(Hits, Windows)>)
        requires
            old(g).inv(),
            0 <= self.state().at,
            self.state().j < old(g).state().active.len(),
            !self.state().ended ==> decodes(old(g).state().active[self.state().j]),
        ensures
            ({
                let c = self.state();
                let s = old(g).state().active[c.j];
                match r {
                    None => (c.ended || c.at >= c.tokens.len()) && final(g).state() == old(g).state() && final(g).inv(),
                    Some((h, w)) => {
                        &&& !c.ended
                        &&& c.at < c.tokens.len()
                        &&& h == hits_of(s, c.tokens[c.at])
                        &&& w == windows_of(with_token(s, c.tokens[c.at]), h)
                        &&& final(g).mid(c.j, h)
                        &&& final(g).state() == with_job(old(g).state(), c.j, with_token(s, c.tokens[c.at]))
                    },
                }
            }),
    {
        if self.ended || self.at >= self.tokens.len() {
            return None;
        }
        let h = g.take_token(self.j, self.tokens[self.at]);
        let w = g.windows(self.j, h);
        Some((h, w))
    }

    /// The event of the token that was taken, from what was heard of it.
    pub fn heard(&mut self, g: &mut Generator, h: Hits, heard: &Heard) -> (r: StreamEvent)
        requires
            old(g).mid(old(self).state().j, h),
            old(self).state().at < old(self).state().tokens.len(),
        ensures
            final(g).inv(),
            ({
                let c = old(self).state();
                let (s, told) = finished(old(g).state().active[c.j], h, *heard, old(g).state().rq_budget);
                &&& r.told() == told
                &&& final(g).state() == with_job(old(g).state(), c.j, s)
                &&& final(self).state() == (Committing { at: c.at + 1, ended: told.eos, ..c })
                &&& !told.eos && !old(g).state().active[c.j].done ==> decodes(final(g).state().active[c.j])
            }),
    {
        let ev = g.finish_event(self.j, h, heard);
        proof {
            let s = g.state().active[self.j as int];
            assert(runs(g.state(), s));
        }
        let n: usize = self.tokens.len();
        assert(self.at < n);
        self.at = self.at + 1;
        self.ended = ev.eos;
        ev
    }
}

/// Texts by the serials of their requests: a text goes behind those of no later serial.
pub open spec fn filed(done: Seq<(u64, Seq<char>)>, serial: u64, text: Seq<char>) -> Seq<(u64, Seq<char>)>
    decreases done.len(),
{
    if done.len() == 0 || done.last().0 <= serial {
        done.push((serial, text))
    } else {
        filed(done.drop_last(), serial, text).push(done.last())
    }
}

/// The whole texts of the requests that ended, by their serials.
pub open spec fn filed_all(events: Seq<StreamEvent>) -> Seq<(u64, Seq<char>)>
    decreases events.len(),
{
    if events.len() == 0 {
        seq![]
    } else {
        let done = filed_all(events.drop_last());
        let ev = events.last();
        if ev.eos {
            filed(
                done,
                ev.serial,
                match ev.full_text {
                    Some(t) => t@,
                    None => seq![],
                },
            )
        } else {
            done
        }
    }
}

pub open spec fn texts_of(v: Seq<(u64, String)>) -> Seq<(u64, Seq<char>)> {
    Seq::new(v.len(), |i: int| (v[i].0, v[i].1@))
}

/// Whether serials do not fall.
pub open spec fn in_order(v: Seq<(u64, Seq<char>)>) -> bool {
    forall|i: int, j: int| 0 <= i < j < v.len() ==> (#[trigger] v[i]).0 <= (#[trigger] v[j]).0
}

/// Filing keeps the order, and every text.
pub proof fn filing_keeps_order(done: Seq<(u64, Seq<char>)>, serial: u64, text: Seq<char>)
    requires
        in_order(done),
    ensures
        in_order(filed(done, serial, text)),
        filed(done, serial, text).to_multiset() == done.to_multiset().insert((serial, text)),
        done.len() > 0 && done.last().0 > serial ==> filed(done, serial, text).len() > 0 && filed(
            done,
            serial,
            text,
        ).last().0 <= done.last().0,
    decreases done.len(),
{
    broadcast use vstd::seq_lib::group_to_multiset_ensures;

    if done.len() == 0 || done.last().0 <= serial {
        assert(in_order(done.push((serial, text))));
    } else {
        let rest = done.drop_last();
        let f = filed(rest, serial, text);
        assert(in_order(rest));
        filing_keeps_order(rest, serial, text);
        if rest.len() > 0 && rest.last().0 > serial {
            assert(f.last().0 <= rest.last().0 <= done.last().0);
        } else {
            assert(f.last().0 == serial);
        }
        assert forall|i: int, j: int| 0 <= i < j < f.push(done.last()).len() implies (#[trigger] f.push(done.last())[i]).0
            <= (#[trigger] f.push(done.last())[j]).0 by {
            if j == f.len() && i < f.len() - 1 {
                assert(f[i].0 <= f[f.len() - 1].0);
            }
        }
        assert(done =~= rest.push(done.last()));
        assert(f.push(done.last()).to_multiset() == f.to_multiset().insert(done.last()));
        assert(done.to_multiset() == rest.to_multiset().insert(done.last()));
        assert(f.push(done.last()).to_multiset() =~= done.to_multiset().insert((serial, text)));
    }
}

/// The whole texts of the requests that ended, in the order in which they were queued.
pub fn finished_texts(events: &Vec<StreamEvent>) -> (r: Vec<(u64, String)>)
    ensures
        texts_of(r@) == filed_all(events@),
        in_order(texts_of(r@)),
{
    let mut done: Vec<(u64, String)> = Vec::new();
    let mut k: usize = 0;
    assert(events@.take(0) =~= seq![]);
    assert(texts_of(done@) =~= seq![]);
    while k < events.len()
        invariant
            k <= events@.len(),
            texts_of(done@) == filed_all(events@.take(k as int)),
            in_order(texts_of(done@)),
        decreases events@.len() - k,
    {
        let ev = &events[k];
        assert(events@.take(k + 1).drop_last() =~= events@.take(k as int));
        if ev.eos {
            let text: String = match &ev.full_text {
                Some(t) => t.clone(),
                None => String::new(),
            };
            file_text(&mut done, ev.serial, text);
        }
        k = k + 1;
    }
    assert(events@.take(events@.len() as int) =~= events@);
    done
}

fn file_text(done: &mut Vec<(u64, String)>, serial: u64, text: String)
    requires
        in_order(texts_of(old(done)@)),
    ensures
        texts_of(final(done)@) == filed(texts_of(old(done)@), serial, text@),
        in_order(texts_of(final(done)@)),
{
    let ghost all = texts_of(done@);
    let ghost given = done@;
    let mut at: usize = done.len();
    proof {
        filing_keeps_order(all, serial, text@);
        assert(all.take(all.len() as int) =~= all);
    }
    while at > 0 && done[at - 1].0 > serial
        invariant
            at <= done@.len(),
            done@ == given,
            all == texts_of(given),
            filed(all, serial, text@) == filed(all.take(at as int), serial, text@) + all.skip(at as int),
        decreases at,
    {
        proof {
            let t = all.take(at as int);
            assert(t.last() == all[at - 1]);
            assert(all[at - 1].0 == given[at - 1].0);
            assert(t.drop_last() =~= all.take(at - 1));
            assert(filed(t, serial, text@) == filed(all.take(at - 1), serial, text@).push(t.last()));
            assert(filed(all.take(at - 1), serial, text@).push(t.last()) + all.skip(at as int) =~= filed(
                all.take(at - 1),
                serial,
                text@,
            ) + all.skip(at - 1));
        }
        at = at - 1;
    }
    proof {
        let t = all.take(at as int);
        if at > 0 {
            assert(t.last() == all[at - 1]);
            assert(all[at - 1].0 == given[at - 1].0);
        }
        assert(filed(t, serial, text@) == t.push((serial, text@)));
    }
    done.insert(at, (serial, text));
    assert(texts_of(done@) =~= all.take(at as int).push((serial, text@)) + all.skip(at as int));
}

/// The text that an event that ends a request carries.
pub open spec fn told_text(ev: StreamEvent) -> Seq<char> {
    match ev.full_text {
        Some(t) => t@,
        None => seq![],
    }
}

/// The finished texts are those of the requests that ended, one for each, by their serials.
pub proof fn every_ended_request_is_filed(events: Seq<StreamEvent>)
    ensures
        in_order(filed_all(events)),
        forall|i: int|
            0 <= i < events.len() && (#[trigger] events[i]).eos ==> filed_all(events).contains(
                (events[i].serial, told_text(events[i])),
            ),
        forall|k: int|
            0 <= k < filed_all(events).len() ==> exists|i: int|
                0 <= i < events.len() && (#[trigger] events[i]).eos && #[trigger] filed_all(events)[k] == (
                    events[i].serial,
                    told_text(events[i]),
                ),
        events.len() > 0 ==> filed_all(events).len() == filed_all(events.drop_last()).len() + if events.last().eos {
            1int
        } else {
            0
        },
    decreases events.len(),
{
    if events.len() > 0 {
        let less = events.drop_last();
        let done = filed_all(less);
        let ev = events.last();
        every_ended_request_is_filed(less);
        let all = filed_all(events);
        if ev.eos {
            filing_keeps_order(done, ev.serial, told_text(ev));
            lemma_filed(done, ev.serial, told_text(ev));
        }
        assert forall|i: int| 0 <= i < events.len() && (#[trigger] events[i]).eos implies all.contains(
            (events[i].serial, told_text(events[i])),
        ) by {
            if i < less.len() {
                assert(less[i].eos);
                assert(done.contains((less[i].serial, told_text(less[i]))));
            }
        }
        assert forall|k: int| 0 <= k < all.len() implies exists|i: int|
            0 <= i < events.len() && (#[trigger] events[i]).eos && #[trigger] all[k] == (
                events[i].serial,
                told_text(events[i]),
            ) by {
            assert(all.contains(all[k]));
            if done.contains(all[k]) {
                let m = choose|m: int| 0 <= m < done.len() && done[m] == all[k];
                let i = choose|i: int|
                    0 <= i < less.len() && (#[trigger] less[i]).eos && #[trigger] done[m] == (
                        less[i].serial,
                        told_text(less[i]),
                    );
                assert(events[i] == less[i]);
            } else {
                assert(events[events.len() - 1] == ev);
            }
        }
    }
}

proof fn lemma_filed(done: Seq<(u64, Seq<char>)>, serial: u64, text: Seq<char>)
    ensures
        filed(done, serial, text).len() == done.len() + 1,
        forall|x: (u64, Seq<char>)| #[trigger]
            filed(done, serial, text).contains(x) <==> done.contains(x) || x == (serial, text),
    decreases done.len(),
{
    let all = filed(done, serial, text);
    if done.len() == 0 || done.last().0 <= serial {
        assert forall|x: (u64, Seq<char>)| #[trigger] all.contains(x) <==> done.contains(x) || x == (serial, text) by {
            lemma_pushed(done, (serial, text), x);
        }
    } else {
        let less = done.drop_last();
        let f = filed(less, serial, text);
        lemma_filed(less, serial, text);
        assert forall|x: (u64, Seq<char>)| #[trigger] all.contains(x) <==> done.contains(x) || x == (serial, text) by {
            lemma_pushed(f, done.last(), x);
            lemma_pushed(less, done.last(), x);
            assert(less.push(done.last()) =~= done);
        }
    }
}

proof fn lemma_pushed(s: Seq<(u64, Seq<char>)>, y: (u64, Seq<char>), x: (u64, Seq<char>))
    ensures
        s.push(y).contains(x) <==> s.contains(x) || x == y,
{
    let t = s.push(y);
    if s.contains(x) {
        let k = choose|k: int| 0 <= k < s.len() && s[k] == x;
        assert(t[k] == x);
    }
    if x == y {
        assert(t[s.len() as int] == x);
    }
    if t.contains(x) && x != y {
        let k = choose|k: int| 0 <= k < t.len() && t[k] == x;
        assert(s[k] == x);
    }
}

} // verus!
