//! The decisions of a parallel run: how many tasks to start, when to stop, and
//! how the results that came back are turned into one result.
use vstd::prelude::*;
use crate::promise::ok_values;

verus! {

/// Bookkeeping of a parallel run of `total` tasks, started in order.
///
/// At most `limit` tasks run at once (no bound when `limit` is 0). When `num_first`
/// is not 0 the run aims at `num_first` tasks that end with `Ok`: it starts no more
/// tasks once that many have ended so, and when `wait` is false it stops at once.
pub struct Scheduler {
    total: usize,
    limit: usize,
    num_first: usize,
    wait: bool,
    launched: usize,
    running: usize,
    received_ok: usize,
    any_failed: bool,
}

impl Scheduler {
    pub closed spec fn total(&self) -> nat {
        self.total as nat
    }

    pub closed spec fn limit(&self) -> nat {
        self.limit as nat
    }

    pub closed spec fn num_first(&self) -> nat {
        self.num_first as nat
    }

    pub closed spec fn waits(&self) -> bool {
        self.wait
    }

    /// Tasks started so far (they are the first ones, in order).
    pub closed spec fn launched(&self) -> nat {
        self.launched as nat
    }

    /// Tasks started and not yet ended.
    pub closed spec fn running(&self) -> nat {
        self.running as nat
    }

    /// Tasks ended so far.
    pub open spec fn received(&self) -> nat {
        (self.launched() - self.running()) as nat
    }

    /// Tasks ended with `Ok` so far.
    pub closed spec fn received_ok(&self) -> nat {
        self.received_ok as nat
    }

    /// Some task ended with `Err` so far.
    pub closed spec fn any_failed(&self) -> bool {
        self.any_failed
    }

    /// The aimed number of `Ok` results has been reached.
    pub open spec fn reached(&self) -> bool {
        self.num_first() > 0 && self.received_ok() >= self.num_first()
    }

    /// The counters agree with one another.
    pub open spec fn wf(&self) -> bool {
        &&& self.launched() <= self.total()
        &&& self.running() <= self.launched()
        &&& self.received_ok() <= self.received()
        &&& self.limit() > 0 ==> self.running() <= self.limit()
    }

    /// How many tasks a call of `launch` starts in the state `self`.
    pub open spec fn batch(&self) -> nat {
        if self.reached() {
            0
        } else if self.limit() == 0 {
            (self.total() - self.launched()) as nat
        } else {
            let room = (self.limit() - self.running()) as nat;
            let left = (self.total() - self.launched()) as nat;
            if room < left { room } else { left }
        }
    }

    /// A run of `total` tasks, none started.
    pub fn new(total: usize, limit: usize, num_first: usize, wait: bool) -> (s: Scheduler)
        ensures
            s.wf(),
            s.total() == total,
            s.limit() == limit,
            s.num_first() == num_first,
            s.waits() == wait,
            s.launched() == 0,
            s.running() == 0,
            s.received_ok() == 0,
            !s.any_failed(),
    {
        Scheduler { total, limit, num_first, wait, launched: 0, running: 0, received_ok: 0, any_failed: false }
    }

    /// Number of tasks running.
    pub fn running_now(&self) -> (n: usize)
        ensures
            n == self.running(),
    {
        self.running
    }

    /// Starts the next tasks: as many as the limit lets run, none once the aim is
    /// reached. Returns how many; they are the next ones in order.
    pub fn launch(&mut self) -> (n: usize)
        requires
            old(self).wf(),
        ensures
            final(self).wf(),
            n == old(self).batch(),
            final(self).launched() == old(self).launched() + n,
            final(self).running() == old(self).running() + n,
            final(self).received_ok() == old(self).received_ok(),
            final(self).any_failed() == old(self).any_failed(),
            final(self).total() == old(self).total(),
            final(self).limit() == old(self).limit(),
            final(self).num_first() == old(self).num_first(),
            final(self).waits() == old(self).waits(),
    {
        let mut n: usize = 0;
        while !(self.num_first > 0 && self.received_ok >= self.num_first) && self.launched < self.total
            && (self.limit == 0 || self.running < self.limit)
            invariant
                self.wf(),
                self.total == old(self).total,
                self.limit == old(self).limit,
                self.num_first == old(self).num_first,
                self.wait == old(self).wait,
                self.received_ok == old(self).received_ok,
                self.any_failed == old(self).any_failed,
                self.launched == old(self).launched + n,
                self.running == old(self).running + n,
                n <= old(self).batch(),
            decreases self.total - self.launched,
        {
            self.launched = self.launched + 1;
            self.running = self.running + 1;
            n = n + 1;
        }
        n
    }

    /// One of the running tasks has ended, with `Ok` when `ok`.
    pub fn complete(&mut self, ok: bool)
        requires
            old(self).wf(),
            old(self).running() > 0,
        ensures
            final(self).wf(),
            final(self).running() == old(self).running() - 1,
            final(self).launched() == old(self).launched(),
            final(self).received_ok() == old(self).received_ok() + if ok { 1int } else { 0int },
            final(self).any_failed() == (old(self).any_failed() || !ok),
            final(self).total() == old(self).total(),
            final(self).limit() == old(self).limit(),
            final(self).num_first() == old(self).num_first(),
            final(self).waits() == old(self).waits(),
    {
        self.running = self.running - 1;
        if ok {
            self.received_ok = self.received_ok + 1;
        } else {
            self.any_failed = true;
        }
    }

    /// The run stops now, without waiting for the tasks still running: the aim is
    /// reached and the run does not wait.
    pub fn stops_early(&self) -> (b: bool)
        ensures
            b == (!self.waits() && self.reached()),
    {
        !self.wait && self.num_first > 0 && self.received_ok >= self.num_first
    }

    /// The run fails: it aimed at `num_first` results `Ok` and got fewer, or it
    /// aimed at all of them and some task failed.
    pub fn failed(&self) -> (b: bool)
        ensures
            b == if self.num_first() > 0 {
                self.received_ok() < self.num_first()
            } else {
                self.any_failed()
            },
    {
        if self.num_first > 0 {
            self.received_ok < self.num_first
        } else {
            self.any_failed
        }
    }
}

/// At no time do more tasks run than the limit lets.
pub proof fn lemma_limit_respected(s: Scheduler)
    requires
        s.wf(),
    ensures
        s.limit() > 0 ==> s.running() <= s.limit(),
        s.launched() <= s.total(),
{
}

/// The results that came back, in the order of the tasks.
pub open spec fn received_results<T, E>(slots: Seq<Option<Result<T, E>>>) -> Seq<Result<T, E>>
    decreases slots.len(),
{
    if slots.len() == 0 {
        Seq::empty()
    } else {
        let rest = received_results(slots.drop_last());
        match slots.last() {
            Some(r) => rest.push(r),
            None => rest,
        }
    }
}

/// The one result of a run: the values of the tasks that ended `Ok` when the run
/// did not fail, else every result that came back.
pub open spec fn run_verdict<T, E>(received: Seq<Result<T, E>>, failed: bool) -> Result<Seq<T>, Seq<Result<T, E>>> {
    if failed {
        Err(received)
    } else {
        Ok(ok_values(received))
    }
}

/// Turns the slots of a run (one per task, `None` for a task whose result did not
/// come back) into the run's result.
pub fn assemble<T, E>(slots: Vec<Option<Result<T, E>>>, failed: bool) -> (r: Result<Vec<T>, Vec<Result<T, E>>>)
    ensures
        crate::promise::verdict_view(r) == run_verdict(received_results(slots@), failed),
{
    let ghost all = slots@;
    let ghost mut got: Seq<Result<T, E>> = Seq::empty();
    let mut rest = slots;
    let mut values: Vec<T> = Vec::new();
    let mut results: Vec<Result<T, E>> = Vec::new();
    while rest.len() > 0
        invariant
            all == all.take(all.len() - rest@.len()) + rest@,
            rest@.len() <= all.len(),
            got == received_results(all.take(all.len() - rest@.len())),
            failed ==> results@ == got,
            !failed ==> values@ == ok_values(got),
        decreases rest.len(),
    {
        let ghost done = all.take(all.len() - rest@.len());
        let slot = rest.remove(0);
        assert(slot == all[done.len() as int]);
        assert(all.take(all.len() - rest@.len()) == done.push(slot));
        assert(all.take(all.len() - rest@.len()).drop_last() == done);
        match slot {
            Some(res) => {
                let ghost before = got;
                proof {
                    got = got.push(res);
                }
                assert(got.drop_last() == before);
                if failed {
                    results.push(res);
                } else {
                    match res {
                        Ok(t) => values.push(t),
                        Err(_) => {},
                    }
                }
            },
            None => {},
        }
    }
    assert(all.take(all.len() as int) == all);
    if failed {
        Err(results)
    } else {
        Ok(values)
    }
}

} // verus!
