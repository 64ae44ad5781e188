//! Fan-out: the events of all jobs come from one loop, and each goes to whoever waits for it.
use vstd::prelude::*;
use crate::generator::job::StreamEvent;

verus! {

/// Who waits for events.
pub struct Fanout {
    serials: Vec<u64>,
}

/// Who waits after an event: nobody for a job that ended.
pub open spec fn after(waiting: Set<u64>, serial: u64, eos: bool) -> Set<u64> {
    if eos {
        waiting.remove(serial)
    } else {
        waiting
    }
}

/// Who waits after the first `n` events.
pub open spec fn after_all(waiting: Set<u64>, events: Seq<StreamEvent>, n: nat) -> Set<u64>
    decreases n,
{
    if n == 0 {
        waiting
    } else {
        after(after_all(waiting, events, (n - 1) as nat), events[n - 1].serial, events[n - 1].eos)
    }
}

impl Fanout {
    /// The jobs whose events somebody waits for.
    pub closed spec fn waiting(&self) -> Set<u64> {
        self.serials@.to_set()
    }

    /// Nobody waits.
    pub fn new() -> (r: Fanout)
        ensures
            r.waiting() == Set::<u64>::empty(),
    {
        let r = Fanout { serials: Vec::new() };
        assert(r.serials@.to_set() =~= Set::empty());
        r
    }

    fn find(&self, serial: u64) -> (r: Option<usize>)
        ensures
            match r {
                Some(i) => i < self.serials.len() && self.serials@[i as int] == serial && self.waiting().contains(serial),
                None => !self.waiting().contains(serial),
            },
    {
        let mut i: usize = 0;
        while i < self.serials.len()
            invariant
                i <= self.serials.len(),
                forall|j: int| 0 <= j < i ==> #[trigger] self.serials@[j] != serial,
            decreases self.serials.len() - i,
        {
            if self.serials[i] == serial {
                assert(self.serials@.contains(serial));
                return Some(i);
            }
            i = i + 1;
        }
        None
    }

    /// Whether somebody waits for the events of a job.
    pub fn is_waiting(&self, serial: u64) -> (r: bool)
        ensures
            r == self.waiting().contains(serial),
    {
        self.find(serial).is_some()
    }

    /// Somebody waits for the events of a job.
    pub fn register(&mut self, serial: u64)
        ensures
            final(self).waiting() == old(self).waiting().insert(serial),
    {
        let ghost before = self.serials@;
        self.serials.push(serial);
        proof {
            assert forall|x: u64| self.serials@.to_set().contains(x) <==> before.to_set().insert(serial).contains(x) by {
                if before.contains(x) {
                    let k = choose|k: int| 0 <= k < before.len() && before[k] == x;
                    assert(self.serials@[k] == x);
                }
                if x == serial {
                    assert(self.serials@[before.len() as int] == x);
                }
                if self.serials@.contains(x) && x != serial {
                    let k = choose|k: int| 0 <= k < self.serials@.len() && self.serials@[k] == x;
                    assert(before[k] == x);
                }
            }
            assert(self.serials@.to_set() =~= before.to_set().insert(serial));
        }
    }

    /// Nobody waits any more for the events of a job.
    pub fn forget(&mut self, serial: u64)
        ensures
            final(self).waiting() == old(self).waiting().remove(serial),
    {
        let mut kept: Vec<u64> = Vec::new();
        let mut i: usize = 0;
        let ghost all = self.serials@;
        while i < self.serials.len()
            invariant
                self.serials@ == all,
                i <= all.len(),
                forall|x: u64| #[trigger] kept@.contains(x) <==> x != serial && all.take(i as int).contains(x),
            decreases all.len() - i,
        {
            let s: u64 = self.serials[i];
            let ghost before = kept@;
            if s != serial {
                kept.push(s);
            }
            i = i + 1;
            proof {
                let a = all.take(i - 1);
                let b = all.take(i as int);
                assert(b =~= a.push(s));
                assert forall|x: u64| #[trigger] kept@.contains(x) <==> x != serial && b.contains(x) by {
                    assert(before.contains(x) <==> x != serial && a.contains(x));
                    lemma_push_contains(a, s, x);
                    lemma_push_contains(before, s, x);
                }
            }
        }
        assert(all.take(i as int) =~= all);
        self.serials = kept;
        assert(self.serials@.to_set() =~= all.to_set().remove(serial));
    }

    /// Which of these events are handed on. An event goes to whoever waits for its job; behind
    /// the last event of a job nobody waits any more.
    pub fn dispatch(&mut self, events: &Vec<StreamEvent>) -> (r: Vec<bool>)
        ensures
            final(self).waiting() == after_all(old(self).waiting(), events@, events@.len()),
            r@ == Seq::new(
                events@.len(),
                |i: int| after_all(old(self).waiting(), events@, i as nat).contains(events@[i].serial),
            ),
    {
        let ghost first = self.waiting();
        let mut r: Vec<bool> = Vec::new();
        let mut i: usize = 0;
        while i < events.len()
            invariant
                i <= events.len(),
                self.waiting() == after_all(first, events@, i as nat),
                r@ == Seq::new(i as nat, |j: int| after_all(first, events@, j as nat).contains(events@[j].serial)),
            decreases events.len() - i,
        {
            let serial: u64 = events[i].serial;
            r.push(self.is_waiting(serial));
            if events[i].eos {
                self.forget(serial);
            }
            i = i + 1;
            assert(r@ =~= Seq::new(
                i as nat,
                |j: int| after_all(first, events@, j as nat).contains(events@[j].serial),
            ));
        }
        r
    }
}

proof fn lemma_push_contains(s: Seq<u64>, y: u64, x: u64)
    ensures
        s.push(y).contains(x) <==> s.contains(x) || x == y,
{
    let t = s.push(y);
    if s.contains(x) {
        let k = choose|k: int| 0 <= k < s.len() && s[k] == x;
        assert(t[k] == x);
    }
    if x == y {
        assert(t[s.len() as int] == x);
    }
    if t.contains(x) && x != y {
        let k = choose|k: int| 0 <= k < t.len() && t[k] == x;
        assert(s[k] == x);
    }
}

proof fn lemma_after(waiting: Set<u64>, events: Seq<StreamEvent>, m: nat, n: nat, serial: u64)
    requires
        m <= n,
        !after_all(waiting, events, m).contains(serial),
    ensures
        !after_all(waiting, events, n).contains(serial),
    decreases n,
{
    if m < n {
        lemma_after(waiting, events, m, (n - 1) as nat, serial);
    }
}

/// Behind the last event of a job, none of its events is handed on.
pub proof fn nothing_follows_the_end(waiting: Set<u64>, events: Seq<StreamEvent>, i: int, j: int)
    requires
        0 <= i < j < events.len(),
        events[i].eos,
        events[j].serial == events[i].serial,
    ensures
        !after_all(waiting, events, j as nat).contains(events[j].serial),
{
    lemma_after(waiting, events, (i + 1) as nat, j as nat, events[i].serial);
}

proof fn lemma_waits(waiting: Set<u64>, events: Seq<StreamEvent>, n: nat, serial: u64)
    requires
        n <= events.len(),
    ensures
        after_all(waiting, events, n).contains(serial) <==> waiting.contains(serial) && forall|j: int|
            0 <= j < n && (#[trigger] events[j]).serial == serial ==> !events[j].eos,
    decreases n,
{
    if n > 0 {
        lemma_waits(waiting, events, (n - 1) as nat, serial);
    }
}

/// An event is handed on where somebody waited for its job from the start and the job has not
/// ended before it; the events of other jobs change nothing in that.
pub proof fn events_go_to_whoever_waits(waiting: Set<u64>, events: Seq<StreamEvent>, i: int)
    requires
        0 <= i < events.len(),
    ensures
        after_all(waiting, events, i as nat).contains(events[i].serial) <==> waiting.contains(events[i].serial) && forall|
            j: int,
        |
            0 <= j < i && (#[trigger] events[j]).serial == events[i].serial ==> !events[j].eos,
{
    lemma_waits(waiting, events, i as nat, events[i].serial);
}

} // verus!
