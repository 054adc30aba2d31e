//! Deferred tasks: work stored now and executed when it is turned into a promise.
use vstd::prelude::*;
use crate::task::Task;
use crate::promise::{Promise, ok_values, verdict_view};
use crate::schedule::{Scheduler, assemble, received_results, run_verdict};

verus! {

/// Different possibilities for the treatment of vectors of tasks.
pub enum ControlFlow {
    /// Executes one after each other. Stops execution if one fails.
    Series,
    /// Executes all tasks at the same time.
    Parallel,
    /// Executes all tasks but only **usize** tasks running at the same time.
    ParallelLimit(usize),
    /// Executes all tasks but only **NumberCpus** tasks running at the same time.
    ParallelCPUS,
}

/// `ran` holds, in order, the results of the tasks that a run in series executed
/// out of `total`: it goes on while tasks end `Ok`, and stops after the first `Err`
/// or, when `num_first` is not 0, once `num_first` tasks have ended `Ok`.
pub open spec fn series_run<T, E>(ran: Seq<Result<T, E>>, total: nat, num_first: nat) -> bool {
    &&& ran.len() <= total
    &&& forall|i: int| 0 <= i < ran.len() - 1 ==> (#[trigger] ran[i]) is Ok
    &&& num_first > 0 ==> ran.len() <= num_first
    &&& ran.len() == total || (ran.len() > 0 && ran.last() is Err) || (num_first > 0 && ran.len() == num_first)
}

/// The result of a run in series: every result, the failed one last, when a task
/// failed, and every result too when the run aimed at `num_first` values and got
/// fewer; else the values.
pub open spec fn series_verdict<T, E>(ran: Seq<Result<T, E>>, num_first: nat) -> Result<Seq<T>, Seq<Result<T, E>>> {
    if (ran.len() > 0 && ran.last() is Err) || (num_first > 0 && ok_values(ran).len() < num_first) {
        Err(ran)
    } else {
        Ok(ok_values(ran))
    }
}

/// `ran` holds the results of the first tasks of `tasks`, each one a result that
/// its task can give.
pub open spec fn ran_from<T: Send + 'static, E: Send + 'static>(tasks: Seq<Deferred<T, E>>, ran: Seq<Result<T, E>>) -> bool {
    &&& ran.len() <= tasks.len()
    &&& forall|i: int| 0 <= i < ran.len() ==> #[trigger] tasks[i].outcome(ran[i])
}

/// Every task of `tasks` may be started.
pub open spec fn all_ready<T: Send + 'static, E: Send + 'static>(tasks: Seq<Deferred<T, E>>) -> bool {
    forall|i: int| 0 <= i < tasks.len() ==> #[trigger] tasks[i].ready()
}

/// A sequence of results all `Ok` is its values, each wrapped in `Ok`.
pub(crate) proof fn lemma_all_ok<T, E>(s: Seq<Result<T, E>>)
    requires
        forall|i: int| 0 <= i < s.len() ==> (#[trigger] s[i]) is Ok,
    ensures
        ok_values(s).len() == s.len(),
        ok_values(s).map_values(|t: T| Ok::<T, E>(t)) == s,
    decreases s.len(),
{
    if s.len() > 0 {
        let p = s.drop_last();
        assert forall|i: int| 0 <= i < p.len() implies (#[trigger] p[i]) is Ok by {
            assert(s[i] is Ok);
        }
        lemma_all_ok(p);
        assert(s[s.len() - 1] is Ok);
        assert(ok_values(s).map_values(|t: T| Ok::<T, E>(t)) == s) by {
            assert forall|i: int| 0 <= i < s.len() implies ok_values(s).map_values(|t: T| Ok::<T, E>(t))[i] == s[i] by {
                if i < s.len() - 1 {
                    assert(ok_values(p).map_values(|t: T| Ok::<T, E>(t))[i] == p[i]);
                }
            }
        }
    }
}

/// The values, each wrapped in `Ok`.
fn wrap_ok<T, E>(values: Vec<T>) -> (r: Vec<Result<T, E>>)
    ensures
        r@ == values@.map_values(|t: T| Ok::<T, E>(t)),
{
    let ghost all = values@;
    let mut rest = values;
    let mut r: Vec<Result<T, E>> = Vec::new();
    while rest.len() > 0
        invariant
            all == all.take(all.len() - rest@.len()) + rest@,
            rest@.len() <= all.len(),
            r@ == all.take(all.len() - rest@.len()).map_values(|t: T| Ok::<T, E>(t)),
        decreases rest.len(),
    {
        let ghost done = all.take(all.len() - rest@.len());
        let t = rest.remove(0);
        assert(t == all[done.len() as int]);
        assert(all.take(all.len() - rest@.len()) == done.push(t));
        r.push(Ok(t));
        assert(r@ == all.take(all.len() - rest@.len()).map_values(|t: T| Ok::<T, E>(t)));
    }
    assert(all.take(all.len() as int) == all);
    r
}

/// `r` is how a run in series of `tasks` can end.
pub open spec fn series_outcome<T: Send + 'static, E: Send + 'static>(
    tasks: Seq<Deferred<T, E>>,
    r: Result<Vec<T>, Vec<Result<T, E>>>,
    num_first: nat,
) -> bool {
    exists|ran: Seq<Result<T, E>>| {
        &&& ran_from(tasks, ran)
        &&& series_run(ran, tasks.len(), num_first)
        &&& verdict_view(r) == series_verdict(ran, num_first)
    }
}

/// `r` is how a parallel run of `tasks` can end.
pub open spec fn parallel_outcome<T: Send + 'static, E: Send + 'static>(
    tasks: Seq<Deferred<T, E>>,
    r: Result<Vec<T>, Vec<Result<T, E>>>,
    limit: nat,
    num_first: nat,
    wait: bool,
) -> bool {
    exists|got: Seq<Result<T, E>>| {
        &&& ran_from(tasks, got)
        &&& parallel_run(got, tasks.len(), limit, num_first, wait)
        &&& verdict_view(r) == run_verdict(got, run_failed(got, num_first))
    }
}

/// The number of CPUs available to the process.
///
/// Calls `num_cpus::get`, which counts the logical cores that this process may use;
/// its documentation promises at least 1. The exact number depends on the machine
/// and is not stated.
#[verifier::external_body]
fn cpu_count() -> (n: usize)
    ensures
        n >= 1,
{
    num_cpus::get()
}

/// The number of results that are `Ok`.
pub open spec fn count_ok<T, E>(s: Seq<Result<T, E>>) -> nat {
    ok_values(s).len()
}

/// Some result is an `Err`.
pub open spec fn has_err<T, E>(s: Seq<Result<T, E>>) -> bool {
    exists|i: int| 0 <= i < s.len() && (#[trigger] s[i]) is Err
}

/// A parallel run fails: it aimed at `num_first` results `Ok` and got fewer, or it
/// aimed at all of them and some task failed.
pub open spec fn run_failed<T, E>(got: Seq<Result<T, E>>, num_first: nat) -> bool {
    if num_first > 0 {
        count_ok(got) < num_first
    } else {
        has_err(got)
    }
}

/// `got` holds, in order, the results that a parallel run collected out of `total`
/// tasks, when the tasks end in the order in which they were started.
///
/// The run collects every result, unless it aims at `num_first` results `Ok` and
/// reaches that aim: then it stops at once when it does not wait, and otherwise
/// collects the tasks already started, of which there were at most `limit` running.
pub open spec fn parallel_run<T, E>(got: Seq<Result<T, E>>, total: nat, limit: nat, num_first: nat, wait: bool) -> bool {
    &&& got.len() <= total
    &&& (num_first == 0 || count_ok(got) < num_first) ==> got.len() == total
    &&& (num_first > 0 && count_ok(got) >= num_first) ==> if !wait {
        count_ok(got) == num_first && got.last() is Ok
    } else if limit == 0 {
        got.len() == total
    } else {
        exists|reach: int|
            0 < reach <= got.len() && count_ok(#[trigger] got.take(reach)) == num_first && got[reach - 1] is Ok
                && got.len() == if total < reach - 1 + limit { total as int } else { reach - 1 + limit }
    }
}

proof fn lemma_push_counts<T, E>(s: Seq<Result<T, E>>, r: Result<T, E>)
    ensures
        count_ok(s.push(r)) == count_ok(s) + if r is Ok { 1int } else { 0int },
        has_err(s.push(r)) == (has_err(s) || r is Err),
        s.push(r).take(s.len() as int) == s,
        forall|k: int| 0 <= k <= s.len() ==> #[trigger] s.push(r).take(k) == s.take(k),
{
    assert(s.push(r).drop_last() == s);
    assert(s.push(r).take(s.len() as int) == s);
    assert forall|k: int| 0 <= k <= s.len() implies #[trigger] s.push(r).take(k) == s.take(k) by {
        assert(s.push(r).take(k) =~= s.take(k));
    }
    if has_err(s) {
        let i = choose|i: int| 0 <= i < s.len() && (#[trigger] s[i]) is Err;
        assert(s.push(r)[i] == s[i]);
    }
    if r is Err {
        assert(s.push(r)[s.len() as int] == r);
    }
    if has_err(s.push(r)) && !(r is Err) {
        let i = choose|i: int| 0 <= i < s.push(r).len() && (#[trigger] s.push(r)[i]) is Err;
        assert(s[i] == s.push(r)[i]);
    }
}

/// Slots holding the collected results first, then nothing, give back those results.
proof fn lemma_received_prefix<T, E>(slots: Seq<Option<Result<T, E>>>, got: Seq<Result<T, E>>)
    requires
        got.len() <= slots.len(),
        forall|i: int| 0 <= i < got.len() ==> slots[i] == Some(#[trigger] got[i]),
        forall|i: int| got.len() <= i < slots.len() ==> (#[trigger] slots[i]) is None,
    ensures
        received_results(slots) == got,
    decreases slots.len(),
{
    if slots.len() > 0 {
        let s = slots.drop_last();
        if slots.len() > got.len() {
            lemma_received_prefix(s, got);
        } else {
            let g = got.drop_last();
            assert forall|i: int| 0 <= i < g.len() implies s[i] == Some(#[trigger] g[i]) by {
                assert(slots[i] == Some(got[i]));
            }
            lemma_received_prefix(s, g);
            assert(slots.last() == Some(got.last()));
            assert(g.push(got.last()) == got);
        }
    }
}

/// Stores a function and delays its execution until it is turned into a promise.
/// T : Type of value returned
/// E : Type of error returned
#[verifier::reject_recursive_types(T)]
#[verifier::reject_recursive_types(E)]
pub struct Deferred<T, E> {
    f: Box<dyn Task<T, E>>,
}

impl<T: Send + 'static, E: Send + 'static> Deferred<T, E> {
    /// The stored work may be started.
    pub closed spec fn ready(&self) -> bool {
        self.f.ready()
    }

    /// `r` is a result that the stored work can give.
    pub closed spec fn outcome(&self, r: Result<T, E>) -> bool {
        self.f.outcome(r)
    }

    /// Creates a new task in deferred; `f` is not run.
    pub fn new<F: FnOnce() -> Result<T, E> + Send + 'static>(f: F) -> (d: Deferred<T, E>)
        ensures
            d.ready() == f.requires(()),
            forall|r: Result<T, E>| #[trigger] d.outcome(r) == f.ensures((), r),
    {
        let b: Box<dyn Task<T, E>> = Box::new(f);
        Deferred { f: b }
    }

    /// Runs the stored work on the calling thread.
    fn unlock(self) -> (r: Result<T, E>)
        requires
            self.ready(),
        ensures
            self.outcome(r),
    {
        self.f.run()
    }

    /// Synchronizes the execution with the caller, and returns its value.
    pub fn sync(self) -> (r: Result<T, E>)
        requires
            self.ready(),
        ensures
            self.outcome(r),
    {
        self.to_promise().sync()
    }

    /// Executes the task stored and returns a promise of its result.
    pub fn to_promise(self) -> (p: Promise<T, E>)
        requires
            self.ready(),
        ensures
            self.outcome(p.value()),
    {
        Promise::settled(self.unlock())
    }

    /// A deferred task that, once run, runs this one and then `ft` on its value or
    /// `fe` on its error.
    pub fn then_either<TT, EE, FT, FE>(self, ft: FT, fe: FE) -> (d: Deferred<TT, EE>) where
        TT: Send + 'static,
        EE: Send + 'static,
        FT: FnOnce(T) -> Result<TT, EE> + Send + 'static,
        FE: FnOnce(E) -> Result<TT, EE> + Send + 'static,

        ensures
            ({
                &&& self.ready()
                &&& forall|t: T| #[trigger] self.outcome(Ok(t)) ==> ft.requires((t,))
                &&& forall|e: E| #[trigger] self.outcome(Err(e)) ==> fe.requires((e,))
            }) ==> d.ready(),
            forall|r: Result<TT, EE>| #[trigger] d.outcome(r) ==> exists|r0: Result<T, E>|
                #[trigger] self.outcome(r0) && match r0 {
                    Ok(t) => ft.ensures((t,), r),
                    Err(e) => fe.ensures((e,), r),
                },
    {
        let prev = self;
        let g = move || -> (r: Result<TT, EE>)
            requires
                prev.ready(),
                forall|t: T| #[trigger] prev.outcome(Ok(t)) ==> ft.requires((t,)),
                forall|e: E| #[trigger] prev.outcome(Err(e)) ==> fe.requires((e,)),
            ensures
                exists|r0: Result<T, E>|
                    #[trigger] prev.outcome(r0) && match r0 {
                        Ok(t) => ft.ensures((t,), r),
                        Err(e) => fe.ensures((e,), r),
                    },
            {
                match prev.unlock() {
                    Ok(t) => ft(t),
                    Err(e) => fe(e),
                }
            };
        Deferred::new(g)
    }

    /// A deferred task that, once run, runs this one and then `f` on its whole result.
    pub fn chain<TT, EE, FF>(self, f: FF) -> (d: Deferred<TT, EE>) where
        TT: Send + 'static,
        EE: Send + 'static,
        FF: FnOnce(Result<T, E>) -> Result<TT, EE> + Send + 'static,

        ensures
            (self.ready() && forall|r0: Result<T, E>| #[trigger] self.outcome(r0) ==> f.requires((r0,)))
                ==> d.ready(),
            forall|r: Result<TT, EE>| #[trigger] d.outcome(r) ==> exists|r0: Result<T, E>|
                #[trigger] self.outcome(r0) && f.ensures((r0,), r),
    {
        let prev = self;
        let g = move || -> (r: Result<TT, EE>)
            requires
                prev.ready(),
                forall|r0: Result<T, E>| #[trigger] prev.outcome(r0) ==> f.requires((r0,)),
            ensures
                exists|r0: Result<T, E>| #[trigger] prev.outcome(r0) && f.ensures((r0,), r),
            {
                f(prev.unlock())
            };
        Deferred::new(g)
    }

    /// A deferred task that, once run, runs this one and then `f` on its value;
    /// an error is passed on unchanged.
    pub fn success<TT, F>(self, f: F) -> (d: Deferred<TT, E>) where
        TT: Send + 'static,
        F: FnOnce(T) -> Result<TT, E> + Send + 'static,

        ensures
            (self.ready() && forall|t: T| #[trigger] self.outcome(Ok(t)) ==> f.requires((t,)))
                ==> d.ready(),
            forall|r: Result<TT, E>| #[trigger] d.outcome(r) ==> exists|r0: Result<T, E>|
                #[trigger] self.outcome(r0) && match r0 {
                    Ok(t) => f.ensures((t,), r),
                    Err(e) => r == Err::<TT, E>(e),
                },
    {
        let prev = self;
        let g = move || -> (r: Result<TT, E>)
            requires
                prev.ready(),
                forall|t: T| #[trigger] prev.outcome(Ok(t)) ==> f.requires((t,)),
            ensures
                exists|r0: Result<T, E>| #[trigger] prev.outcome(r0) && match r0 {
                    Ok(t) => f.ensures((t,), r),
                    Err(e) => r == Err::<TT, E>(e),
                },
            {
                match prev.unlock() {
                    Ok(t) => f(t),
                    Err(e) => Err(e),
                }
            };
        Deferred::new(g)
    }

    /// A deferred task that, once run, runs this one and then `f` on its error;
    /// a value is passed on unchanged.
    pub fn fail<F>(self, f: F) -> (d: Deferred<T, E>) where
        F: FnOnce(E) -> Result<T, E> + Send + 'static,

        ensures
            (self.ready() && forall|e: E| #[trigger] self.outcome(Err(e)) ==> f.requires((e,)))
                ==> d.ready(),
            forall|r: Result<T, E>| #[trigger] d.outcome(r) ==> exists|r0: Result<T, E>|
                #[trigger] self.outcome(r0) && match r0 {
                    Ok(t) => r == Ok::<T, E>(t),
                    Err(e) => f.ensures((e,), r),
                },
    {
        let prev = self;
        let g = move || -> (r: Result<T, E>)
            requires
                prev.ready(),
                forall|e: E| #[trigger] prev.outcome(Err(e)) ==> f.requires((e,)),
            ensures
                exists|r0: Result<T, E>| #[trigger] prev.outcome(r0) && match r0 {
                    Ok(t) => r == Ok::<T, E>(t),
                    Err(e) => f.ensures((e,), r),
                },
            {
                match prev.unlock() {
                    Ok(t) => Ok(t),
                    Err(e) => f(e),
                }
            };
        Deferred::new(g)
    }

    /// Executes the task and hands its result to `f`, which returns nothing.
    pub fn finally<F: FnOnce(Result<T, E>) + Send + 'static>(self, f: F)
        requires
            self.ready(),
            forall|r: Result<T, E>| #[trigger] self.outcome(r) ==> f.requires((r,)),
        ensures
            exists|r: Result<T, E>| #[trigger] self.outcome(r) && f.ensures((r,), ()),
    {
        let p = self.to_promise();
        let ghost r = p.value();
        p.finally(f);
        assert(self.outcome(r) && f.ensures((r,), ()));
    }

    /// Executes the task and hands its result to `f`, which returns nothing, before
    /// returning to the caller.
    pub fn finally_sync<F: FnOnce(Result<T, E>) + Send + 'static>(self, f: F)
        requires
            self.ready(),
            forall|r: Result<T, E>| #[trigger] self.outcome(r) ==> f.requires((r,)),
        ensures
            exists|r: Result<T, E>| #[trigger] self.outcome(r) && f.ensures((r,), ()),
    {
        let p = self.to_promise();
        let ghost r = p.value();
        p.finally_sync(f);
        assert(self.outcome(r) && f.ensures((r,), ()));
    }

    /// Executes a vector of tasks and returns a promise of the vector of their values when
    /// all tasks end `Ok`; when one or more fail, the promise fails with the results.
    pub fn vec_to_promise(vector: Vec<Deferred<T, E>>, control: ControlFlow) -> (p: Promise<Vec<T>, Vec<Result<T, E>>>)
        requires
            all_ready(vector@),
        ensures
            match control {
                ControlFlow::Series => series_outcome(vector@, p.value(), 0),
                ControlFlow::Parallel => parallel_outcome(vector@, p.value(), 0, 0, true),
                ControlFlow::ParallelLimit(limit) => parallel_outcome(vector@, p.value(), limit as nat, 0, true),
                ControlFlow::ParallelCPUS => exists|cpus: nat|
                    cpus >= 1 && #[trigger] parallel_outcome(vector@, p.value(), cpus, 0, true),
            },
    {
        match control {
            ControlFlow::Series => Deferred::process_series(vector, 0),
            ControlFlow::Parallel => Deferred::process_parallel(vector, 0, 0, true),
            ControlFlow::ParallelLimit(limit) => Deferred::process_parallel(vector, limit, 0, true),
            ControlFlow::ParallelCPUS => {
                let cpus = cpu_count();
                let p = Deferred::process_parallel(vector, cpus, 0, true);
                assert(parallel_outcome(vector@, p.value(), cpus as nat, 0, true));
                p
            },
        }
    }

    /// Executes a vector of tasks and returns a promise of the values of the first
    /// `num_first` tasks that end `Ok`. When `wait` is true the promise also takes the
    /// tasks running at that moment. When fewer than `num_first` end `Ok`, the promise
    /// fails with all the results.
    pub fn first_to_promise(num_first: usize, wait: bool, vector: Vec<Deferred<T, E>>, control: ControlFlow) -> (p: Promise<Vec<T>, Vec<Result<T, E>>>)
        requires
            all_ready(vector@),
        ensures
            match control {
                ControlFlow::Series => series_outcome(vector@, p.value(), num_first as nat),
                ControlFlow::Parallel => parallel_outcome(vector@, p.value(), 0, num_first as nat, wait),
                ControlFlow::ParallelLimit(limit) => parallel_outcome(vector@, p.value(), limit as nat, num_first as nat, wait),
                ControlFlow::ParallelCPUS => exists|cpus: nat|
                    cpus >= 1 && #[trigger] parallel_outcome(vector@, p.value(), cpus, num_first as nat, wait),
            },
    {
        match control {
            ControlFlow::Series => Deferred::process_series(vector, num_first),
            ControlFlow::Parallel => Deferred::process_parallel(vector, 0, num_first, wait),
            ControlFlow::ParallelLimit(limit) => Deferred::process_parallel(vector, limit, num_first, wait),
            ControlFlow::ParallelCPUS => {
                let cpus = cpu_count();
                let p = Deferred::process_parallel(vector, cpus, num_first, wait);
                assert(parallel_outcome(vector@, p.value(), cpus as nat, num_first as nat, wait));
                p
            },
        }
    }

    /// Executes the tasks in order, at most `limit` running at once (no bound when
    /// `limit` is 0), collecting each result in the slot of its task.
    ///
    /// With `num_first` not 0 the run stops starting tasks once `num_first` have ended
    /// `Ok`; then, when `wait` is false, it stops collecting too, and the tasks already
    /// started are run to their end with their results left out. Here a started task
    /// ends before any task started after it.
    fn process_parallel(vector: Vec<Deferred<T, E>>, limit: usize, num_first: usize, wait: bool) -> (p: Promise<Vec<T>, Vec<Result<T, E>>>)
        requires
            all_ready(vector@),
        ensures
            parallel_outcome(vector@, p.value(), limit as nat, num_first as nat, wait),
    {
        let ghost tasks = vector@;
        let n = vector.len();
        let mut slots: Vec<Option<Result<T, E>>> = Vec::new();
        let mut i: usize = 0;
        while i < n
            invariant
                i <= n,
                slots@.len() == i,
                forall|j: int| 0 <= j < i ==> (#[trigger] slots@[j]) is None,
            decreases n - i,
        {
            slots.push(None);
            i = i + 1;
        }
        let mut sched = Scheduler::new(n, limit, num_first, wait);
        let mut pending = vector;
        let mut running: Vec<Deferred<T, E>> = Vec::new();
        let mut received: usize = 0;
        let ghost mut got: Seq<Result<T, E>> = Seq::empty();
        let ghost mut reach: int = 0;
        let k = sched.launch();
        let mut j: usize = 0;
        while j < k
            invariant
                tasks == vector@,
                n == tasks.len(),
                j <= k,
                k == sched.launched(),
                pending@ == tasks.skip(j as int),
                running@ == tasks.take(j as int),
                sched.launched() <= n,
            decreases k - j,
        {
            let d = pending.remove(0);
            assert(d == tasks[j as int]);
            running.push(d);
            assert(running@ == tasks.take(j + 1));
            j = j + 1;
        }
        assert(tasks.subrange(0, sched.launched() as int) == running@);
        while sched.running_now() > 0 && !sched.stops_early()
            invariant
                tasks == vector@,
                n == tasks.len(),
                all_ready(tasks),
                sched.wf(),
                sched.total() == n,
                sched.limit() == limit,
                sched.num_first() == num_first,
                sched.waits() == wait,
                received == got.len(),
                got.len() == sched.received(),
                pending@ == tasks.skip(sched.launched() as int),
                running@ == tasks.subrange(got.len() as int, sched.launched() as int),
                ran_from(tasks, got),
                sched.received_ok() == count_ok(got),
                sched.any_failed() == has_err(got),
                slots@.len() == n,
                forall|i: int| 0 <= i < got.len() ==> slots@[i] == Some(#[trigger] got[i]),
                forall|i: int| got.len() <= i < n ==> (#[trigger] slots@[i]) is None,
                !sched.reached() && limit == 0 ==> sched.launched() == n,
                !sched.reached() && limit > 0 ==> sched.launched() == if n < got.len() + limit { n as int } else { got.len() + limit },
                sched.reached() && !wait ==> count_ok(got) == num_first && got.last() is Ok,
                sched.reached() && wait && limit == 0 ==> sched.launched() == n,
                sched.reached() && wait && limit > 0 ==> {
                    &&& 0 < reach <= got.len()
                    &&& count_ok(got.take(reach)) == num_first
                    &&& got[reach - 1] is Ok
                    &&& sched.launched() == if n < reach - 1 + limit { n as int } else { reach - 1 + limit }
                },
            decreases 2 * (sched.total() - sched.launched()) + sched.running(),
        {
            let ghost was_reached = sched.reached();
            let d = running.remove(0);
            assert(d == tasks[got.len() as int]);
            let r = d.unlock();
            let ok = r.is_ok();
            sched.complete(ok);
            proof {
                lemma_push_counts(got, r);
            }
            slots.set(received, Some(r));
            let ghost before = got;
            proof {
                got = got.push(r);
                if !was_reached && sched.reached() {
                    reach = got.len() as int;
                    assert(got.take(reach) == got);
                }
            }
            received = received + 1;
            assert(running@ == tasks.subrange(got.len() as int, sched.launched() as int));
            let ghost launched_before = sched.launched();
            let k = sched.launch();
            let mut j: usize = 0;
            while j < k
                invariant
                    tasks == vector@,
                    n == tasks.len(),
                    j <= k,
                    launched_before + k == sched.launched(),
                    sched.launched() <= n,
                    got.len() <= launched_before,
                    pending@ == tasks.skip(launched_before + j),
                    running@ == tasks.subrange(got.len() as int, launched_before + j),
                decreases k - j,
            {
                let d = pending.remove(0);
                assert(d == tasks[launched_before + j]);
                running.push(d);
                assert(running@ == tasks.subrange(got.len() as int, launched_before + j + 1));
                j = j + 1;
            }
        }
        proof {
            lemma_received_prefix(slots@, got);
        }
        assert forall|i: int| 0 <= i < running@.len() implies (#[trigger] running@[i]).ready() by {
            assert(running@[i] == tasks[got.len() + i]);
        }
        while running.len() > 0
            invariant
                forall|i: int| 0 <= i < running@.len() ==> (#[trigger] running@[i]).ready(),
            decreases running.len(),
        {
            let d = running.remove(0);
            let _ = d.sync();
        }
        let failed = sched.failed();
        let p = Promise::settled(assemble(slots, failed));
        assert(ran_from(tasks, got));
        assert(parallel_run(got, tasks.len(), limit as nat, num_first as nat, wait));
        p
    }

    /// Executes the tasks one after another while they end `Ok`; stops after the
    /// first that fails or, when `num_first` is not 0, once `num_first` have ended `Ok`.
    /// When fewer than `num_first` end `Ok`, the run fails with all the results.
    fn process_series(vector: Vec<Deferred<T, E>>, num_first: usize) -> (p: Promise<Vec<T>, Vec<Result<T, E>>>)
        requires
            all_ready(vector@),
        ensures
            series_outcome(vector@, p.value(), num_first as nat),
    {
        let ghost tasks = vector@;
        let ghost mut ran: Seq<Result<T, E>> = Seq::empty();
        let mut rest = vector;
        let mut values: Vec<T> = Vec::new();
        while rest.len() > 0 && !(num_first > 0 && values.len() >= num_first)
            invariant
                tasks == vector@,
                ran.len() + rest@.len() == tasks.len(),
                rest@ == tasks.skip(ran.len() as int),
                all_ready(tasks),
                ran_from(tasks, ran),
                forall|i: int| 0 <= i < ran.len() ==> (#[trigger] ran[i]) is Ok,
                values@ == ok_values(ran),
                values@.len() == ran.len(),
                num_first > 0 ==> ran.len() <= num_first,
            decreases rest.len(),
        {
            let d = rest.remove(0);
            assert(d == tasks[ran.len() as int]);
            let r = d.unlock();
            let ghost before = ran;
            proof {
                ran = ran.push(r);
                assert(ran.drop_last() == before);
            }
            assert(rest@ == tasks.skip(ran.len() as int));
            match r {
                Ok(t) => {
                    values.push(t);
                },
                Err(e) => {
                    proof {
                        lemma_all_ok(before);
                    }
                    let mut errors = wrap_ok(values);
                    errors.push(Err(e));
                    assert(errors@ == ran);
                    let p = Promise::settled(Err(errors));
                    assert(ran_from(tasks, ran));
                    assert(series_run(ran, tasks.len(), num_first as nat));
                    assert(verdict_view(p.value()) == series_verdict(ran, num_first as nat));
                    return p;
                },
            }
        }
        proof {
            lemma_all_ok(ran);
        }
        if num_first > 0 && values.len() < num_first {
            let errors = wrap_ok(values);
            assert(errors@ == ran);
            let p = Promise::settled(Err(errors));
            assert(ran_from(tasks, ran));
            assert(series_run(ran, tasks.len(), num_first as nat));
            assert(verdict_view(p.value()) == series_verdict(ran, num_first as nat));
            return p;
        }
        let p = Promise::settled(Ok(values));
        assert(ran_from(tasks, ran));
        assert(series_run(ran, tasks.len(), num_first as nat));
        assert(verdict_view(p.value()) == series_verdict(ran, num_first as nat));
        p
    }
}

} // verus!
