//! The order of a round: jobs are admitted, prompts ingested, rows decoded, and then pages are
//! hashed and finished jobs leave.
use vstd::prelude::*;
use crate::generator::engine::{
    admissible, attempts_of, chunk_end, chunks_go_forward, comes_next, decides, guided_rows, hashed_jobs,
    plain_rows, reaped_from, runs, verdict, with_job, Admission, Attempt, Chunk, Effect, GenState, Generator,
};
use crate::generator::job::{prefilled, told_plain, JobState, Stage, StreamEvent};

verus! {

/// Where a round stands.
enum Phase {
    Admit,
    Prefill { j: usize },
    Guide { guided: Vec<usize>, rows: Vec<usize>, attempts: Vec<Attempt>, at: usize },
    Decode { rows: Vec<usize>, attempts: Vec<Attempt>, at: usize },
    Hash,
    Reap,
    Over,
}

/// Where a round stands.
pub enum Doing {
    /// The job that waits longest is looked at.
    Admit,
    /// Job `j` is looked at.
    Prefill { j: int },
    /// Each guided row has a token, up to `at`.
    Guide { guided: Seq<usize>, rows: Seq<usize>, attempts: Seq<Attempt>, at: int },
    /// The rows were tried with the attempts up to `at`.
    Decode { rows: Seq<usize>, attempts: Seq<Attempt>, at: int },
    Hash,
    Reap,
    Over,
}

/// One round over the jobs. It says step by step what is done.
pub struct Iteration {
    phase: Phase,
}

/// What is done next.
pub enum Task {
    /// Nothing: the round went a step on.
    Go,
    /// Nothing can be: a counter is used up, or there is no recurrent slot.
    UsedUp,
    /// This was decided on the job that waits longest.
    Admission { admission: Admission },
    /// Ingest a chunk of job `j`, and tell that it is fed.
    Feed { j: usize, chunk: Chunk },
    /// Decode a token of job `j` with guidance.
    Guide { j: usize },
    /// Decode the rows so, and tell where they took a token.
    Decode { rows: Vec<usize>, attempt: Attempt },
    Perform { effects: Vec<Effect> },
    Over,
}

/// Whether `r` is what is done next, and `h` and `e` are what the jobs and the round become.
pub open spec fn doing_next(g: GenState, d: Doing, h: GenState, e: Doing, r: Task) -> bool {
    match d {
        Doing::Admit => if !admissible(g) {
            r is UsedUp && h == g && e == d
        } else if verdict(g) is Stop {
            r is Go && h == g && e == (Doing::Prefill { j: 0 })
        } else {
            e == d && (r matches Task::Admission { admission } && !(admission is Stop) && decides(g, h, admission))
        },
        Doing::Prefill { j } => h == g && if j >= g.active.len() {
            let guided = guided_rows(g.active, g.active.len());
            let rows = plain_rows(g.active, g.active.len());
            r is Go && e == (Doing::Guide { guided, rows, attempts: attempts_of(g, rows), at: 0 })
        } else if prefilled(g.active[j]) {
            r is Go && e == (Doing::Prefill { j: j + 1 })
        } else {
            e == d && (r matches Task::Feed { j: i, chunk } && i == j && comes_next(g, g.active[j], chunk))
        },
        Doing::Guide { guided, rows, attempts, at } => h == g && if at < guided.len() {
            r == (Task::Guide { j: guided[at] }) && e == (Doing::Guide { guided, rows, attempts, at: at + 1 })
        } else {
            r is Go && e == (Doing::Decode { rows, attempts, at: 0 })
        },
        Doing::Decode { rows, attempts, at } => h == g && if at < attempts.len() {
            &&& r matches Task::Decode { rows: v, attempt } && v@ == rows && attempt == attempts[at]
            &&& e == (Doing::Decode { rows, attempts, at: at + 1 })
        } else {
            r is Go && e == Doing::Hash
        },
        Doing::Hash => {
            &&& e == Doing::Reap
            &&& r matches Task::Perform { effects } && if g.table.sharing {
                (h, effects@) == hashed_jobs(g, g.active.len())
            } else {
                h == g && effects@.len() == 0
            }
        },
        Doing::Reap => {
            &&& e == Doing::Over
            &&& r matches Task::Perform { effects } && (h, effects@) == reaped_from(g, 0)
        },
        Doing::Over => r is Over && h == g && e == d,
    }
}

/// How much of a round is left: how many phases, and how many steps of this one.
pub open spec fn left_of(g: GenState, d: Doing) -> (int, int) {
    match d {
        Doing::Admit => (6, g.queue.len() as int),
        Doing::Prefill { j } => (5, if j < g.active.len() {
            g.active.len() - j
        } else {
            0
        }),
        Doing::Guide { guided, at, .. } => (4, if at < guided.len() {
            guided.len() - at
        } else {
            0
        }),
        Doing::Decode { attempts, at, .. } => (3, if at < attempts.len() {
            attempts.len() - at
        } else {
            0
        }),
        Doing::Hash => (2, 0),
        Doing::Reap => (1, 0),
        Doing::Over => (0, 0),
    }
}

/// A round comes to an end: with every step less of it is left, but for the step that asks for
/// a chunk, which waits until it is fed.
pub proof fn rounds_come_to_an_end(g: GenState, d: Doing, h: GenState, e: Doing, r: Task)
    requires
        doing_next(g, d, h, e, r),
        !(d is Over),
        !(r is Feed),
        !(r is UsedUp),
    ensures
        ({
            let (m, n) = left_of(g, d);
            let (k, l) = left_of(h, e);
            0 <= k && 0 <= l && (k < m || (k == m && l < n))
        }),
{
    if d is Admit && !(verdict(g) is Stop) {
        assert(g.queue.len() > 0);
        assert(h.queue == g.queue.drop_first());
    }
}

/// Rows that decode are decoded in the round: where any row is left to the attempts, the last
/// of them is the plain one, which takes a token for each.
pub proof fn rows_go_through_a_round(g: GenState, rows: Seq<usize>)
    requires
        rows.len() > 0,
    ensures
        attempts_of(g, rows).len() > 0,
        attempts_of(g, rows).last() == Attempt::Plain,
        forall|i: int| 0 <= i < attempts_of(g, rows).len() - 1 ==> #[trigger] attempts_of(g, rows)[i] != Attempt::Plain,
{
}

/// Rows are numbers of jobs.
proof fn lemma_rows(jobs: Seq<JobState>, n: nat)
    requires
        n <= jobs.len() <= usize::MAX,
    ensures
        forall|i: int| 0 <= i < plain_rows(jobs, n).len() ==> (#[trigger] plain_rows(jobs, n)[i]) < n,
    decreases n,
{
    if n > 0 {
        lemma_rows(jobs, (n - 1) as nat);
        let before = plain_rows(jobs, (n - 1) as nat);
        assert forall|i: int| 0 <= i < plain_rows(jobs, n).len() implies (#[trigger] plain_rows(jobs, n)[i]) < n by {
            if i < before.len() {
                assert(before[i] < n - 1);
            }
        }
    }
}

fn copy_rows(v: &Vec<usize>) -> (r: Vec<usize>)
    ensures
        r@ == v@,
{
    let mut r: Vec<usize> = Vec::new();
    let mut i: usize = 0;
    while i < v.len()
        invariant
            i <= v.len(),
            r@ == v@.take(i as int),
        decreases v.len() - i,
    {
        r.push(v[i]);
        i = i + 1;
        assert(r@ =~= v@.take(i as int));
    }
    assert(r@ =~= v@);
    r
}

impl Iteration {
    pub closed spec fn doing(&self) -> Doing {
        match self.phase {
            Phase::Admit => Doing::Admit,
            Phase::Prefill { j } => Doing::Prefill { j: j as int },
            Phase::Guide { guided, rows, attempts, at } => Doing::Guide {
                guided: guided@,
                rows: rows@,
                attempts: attempts@,
                at: at as int,
            },
            Phase::Decode { rows, attempts, at } => Doing::Decode { rows: rows@, attempts: attempts@, at: at as int },
            Phase::Hash => Doing::Hash,
            Phase::Reap => Doing::Reap,
            Phase::Over => Doing::Over,
        }
    }

    /// A round that begins.
    pub fn new() -> (r: Iteration)
        ensures
            r.doing() == Doing::Admit,
    {
        Iteration { phase: Phase::Admit }
    }

    /// Go a step on, and say what is to be done.
    pub fn next(&mut self, g: &mut Generator) -> (r: Task)
        requires
            old(g).inv(),
        ensures
            final(g).inv(),
            doing_next(old(g).state(), old(self).doing(), final(g).state(), final(self).doing(), r),
    {
        match &mut self.phase {
            Phase::Admit => {
                if !g.can_admit() {
                    return Task::UsedUp;
                }
                match g.admit_one() {
                    Admission::Stop => {
                        self.phase = Phase::Prefill { j: 0 };
                        Task::Go
                    },
                    admission => Task::Admission { admission },
                }
            },
            Phase::Prefill { j } => {
                let at: usize = *j;
                if at >= g.num_active() {
                    let (guided, rows) = g.decode_rows();
                    proof {
                        lemma_rows(g.state().active, g.state().active.len());
                    }
                    let attempts = g.attempts(&rows);
                    self.phase = Phase::Guide { guided, rows, attempts, at: 0 };
                    return Task::Go;
                }
                match g.chunk(at) {
                    None => {
                        *j = at + 1;
                        Task::Go
                    },
                    Some(chunk) => Task::Feed { j: at, chunk },
                }
            },
            Phase::Guide { guided, rows, attempts, at } => {
                if *at < guided.len() {
                    let j: usize = guided[*at];
                    *at = *at + 1;
                    return Task::Guide { j };
                }
                let mut r: Vec<usize> = Vec::new();
                let mut a: Vec<Attempt> = Vec::new();
                std::mem::swap(&mut r, rows);
                std::mem::swap(&mut a, attempts);
                self.phase = Phase::Decode { rows: r, attempts: a, at: 0 };
                Task::Go
            },
            Phase::Decode { rows, attempts, at } => {
                if *at < attempts.len() {
                    let attempt = attempts[*at];
                    *at = *at + 1;
                    return Task::Decode { rows: copy_rows(rows), attempt };
                }
                self.phase = Phase::Hash;
                Task::Go
            },
            Phase::Hash => {
                let effects = g.hash_complete_pages();
                self.phase = Phase::Reap;
                Task::Perform { effects }
            },
            Phase::Reap => {
                let effects = g.reap();
                self.phase = Phase::Over;
                Task::Perform { effects }
            },
            Phase::Over => Task::Over,
        }
    }

    /// The chunk of the job that is looked at is in the cache; nothing where none was to be
    /// fed.
    pub fn fed(&mut self, g: &mut Generator) -> (r: Option<StreamEvent>)
        requires
            old(g).inv(),
        ensures
            final(g).inv(),
            ({
                let h = old(g).state();
                match old(self).doing() {
                    Doing::Prefill { j } => if j < h.active.len() && !prefilled(h.active[j]) {
                        let s = h.active[j];
                        let end = chunk_end(s.kv_pos as int, s.prompt_len as int, h.max_chunk as int) as i64;
                        &&& r matches Some(ev) && ev.told() == told_plain(
                            s.serial,
                            Stage::Prefill { done: end, total: s.prompt_len },
                        )
                        &&& final(g).state() == with_job(h, j, JobState { kv_pos: end, ..s })
                        &&& final(self).doing() == (Doing::Prefill { j: j + 1 })
                    } else {
                        r is None && final(g).state() == h && final(self).doing() == old(self).doing()
                    },
                    d => r is None && final(g).state() == h && final(self).doing() == d,
                }
            }),
    {
        if let Phase::Prefill { j } = &mut self.phase {
            let at: usize = *j;
            if at < g.num_active() {
                if let Some((_, end)) = g.next_chunk(at) {
                    proof {
                        let s = g.state().active[at as int];
                        assert(runs(g.state(), s));
                        chunks_go_forward(s.kv_pos as int, s.prompt_len as int, g.state().max_chunk as int);
                    }
                    let event = g.chunk_done(at, end);
                    *j = at + 1;
                    return Some(event);
                }
            }
        }
        None
    }

    /// An attempt took the rows: no other is made.
    pub fn took(&mut self)
        ensures
            final(self).doing() == if old(self).doing() is Decode {
                Doing::Hash
            } else {
                old(self).doing()
            },
    {
        if let Phase::Decode { .. } = &self.phase {
            self.phase = Phase::Hash;
        }
    }
}

} // verus!
