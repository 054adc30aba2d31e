//! What the runs of many tasks return, stated in terms of the tasks and the
//! results alone: which results fail a run, how many values a run gives, and from
//! which tasks they come.
use vstd::prelude::*;
use crate::promise::{ok_values, all_settled, verdict_view};
use crate::deferred::{
    Deferred, lemma_all_ok, series_outcome, parallel_outcome, series_run, series_verdict, parallel_run,
    run_failed, ran_from, count_ok, has_err,
};
use crate::schedule::run_verdict;

verus! {

/// The results of `s` that are `Ok`, in order.
pub open spec fn ok_results<T, E>(s: Seq<Result<T, E>>) -> Seq<Result<T, E>> {
    s.filter(|x: Result<T, E>| x is Ok)
}

/// The task can only end `Ok`.
pub open spec fn only_ok<T: Send + 'static, E: Send + 'static>(d: Deferred<T, E>) -> bool {
    forall|r: Result<T, E>| #[trigger] d.outcome(r) ==> r is Ok
}

/// The task can only end `Err`.
pub open spec fn only_err<T: Send + 'static, E: Send + 'static>(d: Deferred<T, E>) -> bool {
    forall|r: Result<T, E>| #[trigger] d.outcome(r) ==> r is Err
}

/// Some task of `tasks` can end with the value `t`.
pub open spec fn value_of<T: Send + 'static, E: Send + 'static>(tasks: Seq<Deferred<T, E>>, t: T) -> bool {
    exists|j: int| 0 <= j < tasks.len() && #[trigger] tasks[j].outcome(Ok(t))
}

/// The values of a sequence are as many as its `Ok` results.
proof fn lemma_count_is_filter<T, E>(s: Seq<Result<T, E>>)
    ensures
        count_ok(s) == ok_results(s).len(),
    decreases s.len(),
{
    reveal(Seq::filter);
    if s.len() > 0 {
        lemma_count_is_filter(s.drop_last());
    }
}

/// Every value of a sequence of results comes from an `Ok` result of it.
proof fn lemma_values_from<T, E>(s: Seq<Result<T, E>>)
    ensures
        forall|i: int| 0 <= i < ok_values(s).len() ==> exists|j: int|
            0 <= j < s.len() && s[j] == Ok::<T, E>(#[trigger] ok_values(s)[i]),
    decreases s.len(),
{
    if s.len() > 0 {
        let p = s.drop_last();
        lemma_values_from(p);
        assert forall|i: int| 0 <= i < ok_values(s).len() implies exists|j: int|
            0 <= j < s.len() && s[j] == Ok::<T, E>(#[trigger] ok_values(s)[i]) by {
            if i < ok_values(p).len() {
                assert(ok_values(s)[i] == ok_values(p)[i]);
                let j = choose|j: int| 0 <= j < p.len() && p[j] == Ok::<T, E>(#[trigger] ok_values(p)[i]);
                assert(s[j] == p[j]);
            } else {
                assert(s[s.len() - 1] == Ok::<T, E>(ok_values(s)[i]));
            }
        }
    }
}

/// Fewer values than results when some result is an `Err`.
proof fn lemma_err_fewer<T, E>(s: Seq<Result<T, E>>, k: int)
    requires
        0 <= k < s.len(),
        s[k] is Err,
    ensures
        count_ok(s) < s.len(),
    decreases s.len(),
{
    let p = s.drop_last();
    if k < s.len() - 1 {
        assert(p[k] == s[k]);
        lemma_err_fewer(p, k);
    } else {
        lemma_ok_values_len(p);
    }
}

/// There are never more values than results.
proof fn lemma_ok_values_len<T, E>(s: Seq<Result<T, E>>)
    ensures
        ok_values(s).len() <= s.len(),
    decreases s.len(),
{
    if s.len() > 0 {
        lemma_ok_values_len(s.drop_last());
    }
}

/// `Promise::all` settles to `Err` of every result exactly when some result, at any
/// position, is an `Err`; otherwise to `Ok` of the values, one per result, in order.
pub proof fn law_all_settled<T, E>(s: Seq<Result<T, E>>)
    ensures
        all_settled(s) is Err <==> exists|i: int| 0 <= i < s.len() && (#[trigger] s[i]) is Err,
        all_settled(s) matches Err(v) ==> v == s,
        all_settled(s) matches Ok(v) ==> v.len() == s.len()
            && forall|i: int| 0 <= i < s.len() ==> s[i] == Ok::<T, E>(#[trigger] v[i]),
{
    if forall|i: int| 0 <= i < s.len() ==> (#[trigger] s[i]) is Ok {
        lemma_all_ok(s);
        assert forall|i: int| 0 <= i < s.len() implies s[i] == Ok::<T, E>(#[trigger] ok_values(s)[i]) by {
            assert(ok_values(s).map_values(|t: T| Ok::<T, E>(t))[i] == s[i]);
        }
        if exists|i: int| 0 <= i < s.len() && (#[trigger] s[i]) is Err {
            let i = choose|i: int| 0 <= i < s.len() && (#[trigger] s[i]) is Err;
            assert(s[i] is Ok);
        }
    } else {
        let i = choose|i: int| 0 <= i < s.len() && !((#[trigger] s[i]) is Ok);
        assert(s[i] is Err);
    }
}

/// What a run in series returns, for every set of tasks: on success, the values of
/// the first tasks, one per task, in order: `num_first` of them, or one per task when
/// `num_first` is 0; on failure, the results of the tasks run, in order, all `Ok` but
/// the last, which is the `Err` that stopped the run, unless every task ran and fewer
/// than `num_first` ended `Ok`.
pub proof fn law_series_result<T: Send + 'static, E: Send + 'static>(
    tasks: Seq<Deferred<T, E>>,
    r: Result<Vec<T>, Vec<Result<T, E>>>,
    num_first: nat,
)
    requires
        series_outcome(tasks, r, num_first),
    ensures
        r matches Ok(v) ==> {
            &&& v@.len() == if num_first > 0 { num_first } else { tasks.len() }
            &&& forall|i: int| 0 <= i < v@.len() ==> #[trigger] tasks[i].outcome(Ok(v@[i]))
        },
        r matches Err(es) ==> {
            &&& es@.len() <= tasks.len()
            &&& forall|i: int| 0 <= i < es@.len() ==> #[trigger] tasks[i].outcome(es@[i])
            &&& forall|i: int| 0 <= i < es@.len() - 1 ==> (#[trigger] es@[i]) is Ok
            &&& (es@.len() > 0 && es@.last() is Err)
                || (num_first > 0 && es@.len() == tasks.len() && ok_results(es@).len() < num_first)
        },
{
    let ran = choose|ran: Seq<Result<T, E>>| {
        &&& ran_from(tasks, ran)
        &&& series_run(ran, tasks.len(), num_first)
        &&& verdict_view(r) == series_verdict(ran, num_first)
    };
    lemma_count_is_filter(ran);
    match r {
        Ok(v) => {
            assert(v@ == ok_values(ran));
            assert(!(ran.len() > 0 && ran.last() is Err));
            assert forall|i: int| 0 <= i < ran.len() implies (#[trigger] ran[i]) is Ok by {
                if i == ran.len() - 1 {
                    assert(ran.last() == ran[i]);
                }
            }
            lemma_all_ok(ran);
            assert forall|i: int| 0 <= i < v@.len() implies #[trigger] tasks[i].outcome(Ok(v@[i])) by {
                assert(ok_values(ran).map_values(|t: T| Ok::<T, E>(t))[i] == ran[i]);
                assert(tasks[i].outcome(ran[i]));
            }
        },
        Err(es) => {
            assert(es@ == ran);
            if !(ran.len() > 0 && ran.last() is Err) {
                assert forall|i: int| 0 <= i < ran.len() implies (#[trigger] ran[i]) is Ok by {
                    if i == ran.len() - 1 {
                        assert(ran.last() == ran[i]);
                    }
                }
                lemma_all_ok(ran);
            }
        },
    }
}

/// A run in series whose tasks can only end `Ok` succeeds when there are enough
/// tasks for the aim.
pub proof fn law_series_succeeds<T: Send + 'static, E: Send + 'static>(
    tasks: Seq<Deferred<T, E>>,
    r: Result<Vec<T>, Vec<Result<T, E>>>,
    num_first: nat,
)
    requires
        series_outcome(tasks, r, num_first),
        forall|i: int| 0 <= i < tasks.len() ==> only_ok(#[trigger] tasks[i]),
        num_first == 0 || tasks.len() >= num_first,
    ensures
        r is Ok,
{
    let ran = choose|ran: Seq<Result<T, E>>| {
        &&& ran_from(tasks, ran)
        &&& series_run(ran, tasks.len(), num_first)
        &&& verdict_view(r) == series_verdict(ran, num_first)
    };
    assert forall|i: int| 0 <= i < ran.len() implies (#[trigger] ran[i]) is Ok by {
        assert(tasks[i].outcome(ran[i]));
        assert(only_ok(tasks[i]));
    }
    if ran.len() > 0 {
        assert(ran.last() == ran[ran.len() - 1]);
    }
    lemma_all_ok(ran);
}

/// A run in series fails at the first task that can only fail, when every task
/// before it can only end `Ok` and the aim is not reached before it: the run fails
/// with the results of the tasks up to it.
pub proof fn law_series_fails_at<T: Send + 'static, E: Send + 'static>(
    tasks: Seq<Deferred<T, E>>,
    r: Result<Vec<T>, Vec<Result<T, E>>>,
    num_first: nat,
    k: int,
)
    requires
        series_outcome(tasks, r, num_first),
        0 <= k < tasks.len(),
        only_err(tasks[k]),
        forall|j: int| 0 <= j < k ==> only_ok(#[trigger] tasks[j]),
        num_first == 0 || k < num_first,
    ensures
        r matches Err(es) && es@.len() == k + 1 && es@.last() is Err,
{
    let ran = choose|ran: Seq<Result<T, E>>| {
        &&& ran_from(tasks, ran)
        &&& series_run(ran, tasks.len(), num_first)
        &&& verdict_view(r) == series_verdict(ran, num_first)
    };
    if ran.len() <= k {
        assert forall|i: int| 0 <= i < ran.len() implies (#[trigger] ran[i]) is Ok by {
            assert(tasks[i].outcome(ran[i]));
            assert(only_ok(tasks[i]));
        }
        if ran.len() > 0 {
            assert(ran.last() == ran[ran.len() - 1]);
        }
        assert(false);
    }
    assert(tasks[k].outcome(ran[k]));
    assert(only_err(tasks[k]));
    assert(ran[k] is Err);
    if k < ran.len() - 1 {
        assert(ran[k] is Ok);
    }
    assert(ran.last() == ran[k]);
}

/// What a parallel run returns, for every set of tasks. Aiming at every result, it
/// gives one value per task, in order, or fails with every result, one per task, some
/// of them `Err`. Aiming at `num_first` values, it fails only when every task ran and
/// fewer than `num_first` ended `Ok`; on success it gives at least `num_first` values,
/// exactly `num_first` when it does not wait, and fewer than `num_first + limit` when
/// it waits with a limit; each value is one that some task can give.
pub proof fn law_parallel_result<T: Send + 'static, E: Send + 'static>(
    tasks: Seq<Deferred<T, E>>,
    r: Result<Vec<T>, Vec<Result<T, E>>>,
    limit: nat,
    num_first: nat,
    wait: bool,
)
    requires
        parallel_outcome(tasks, r, limit, num_first, wait),
    ensures
        num_first == 0 ==> (r matches Ok(v) ==> v@.len() == tasks.len()
            && forall|i: int| 0 <= i < tasks.len() ==> #[trigger] tasks[i].outcome(Ok(v@[i]))),
        num_first == 0 ==> (r matches Err(es) ==> es@.len() == tasks.len()
            && (forall|i: int| 0 <= i < tasks.len() ==> #[trigger] tasks[i].outcome(es@[i]))
            && exists|i: int| 0 <= i < tasks.len() && (#[trigger] es@[i]) is Err),
        num_first > 0 ==> (r matches Err(es) ==> es@.len() == tasks.len()
            && (forall|i: int| 0 <= i < tasks.len() ==> #[trigger] tasks[i].outcome(es@[i]))
            && ok_results(es@).len() < num_first),
        num_first > 0 ==> (r matches Ok(v) ==> {
            &&& v@.len() >= num_first
            &&& !wait ==> v@.len() == num_first
            &&& wait && limit > 0 ==> v@.len() < num_first + limit
        }),
        r matches Ok(v) ==> forall|i: int| 0 <= i < v@.len() ==> #[trigger] value_of(tasks, v@[i]),
{
    let got = choose|got: Seq<Result<T, E>>| {
        &&& ran_from(tasks, got)
        &&& parallel_run(got, tasks.len(), limit, num_first, wait)
        &&& verdict_view(r) == run_verdict(got, run_failed(got, num_first))
    };
    lemma_count_is_filter(got);
    lemma_ok_values_len(got);
    if num_first > 0 && wait && limit > 0 && count_ok(got) >= num_first {
        let reach = choose|reach: int|
            0 < reach <= got.len() && count_ok(#[trigger] got.take(reach)) == num_first && got[reach - 1] is Ok
                && got.len() == if tasks.len() < reach - 1 + limit { tasks.len() as int } else { reach - 1 + limit };
        crate::laws::lemma_count_split(got, reach);
        lemma_ok_values_len(got.skip(reach));
    }
    match r {
        Ok(v) => {
            assert(v@ == ok_values(got));
            lemma_values_from(got);
            assert forall|i: int| 0 <= i < v@.len() implies #[trigger] value_of(tasks, v@[i]) by {
                let j = choose|j: int| 0 <= j < got.len() && got[j] == Ok::<T, E>(#[trigger] ok_values(got)[i]);
                assert(tasks[j].outcome(got[j]));
            }
            if num_first == 0 {
                assert(!has_err(got));
                assert forall|i: int| 0 <= i < got.len() implies (#[trigger] got[i]) is Ok by {
                    if !(got[i] is Ok) {
                        assert(got[i] is Err);
                    }
                }
                lemma_all_ok(got);
                assert forall|i: int| 0 <= i < tasks.len() implies #[trigger] tasks[i].outcome(Ok(v@[i])) by {
                    assert(ok_values(got).map_values(|t: T| Ok::<T, E>(t))[i] == got[i]);
                    assert(tasks[i].outcome(got[i]));
                }
            }
        },
        Err(es) => {
            assert(es@ == got);
            if num_first == 0 {
                let i = choose|i: int| 0 <= i < got.len() && (#[trigger] got[i]) is Err;
                assert(es@[i] is Err);
            }
        },
    }
}

/// A parallel run whose tasks can only end `Ok` succeeds when there are enough tasks
/// for the aim.
pub proof fn law_parallel_succeeds<T: Send + 'static, E: Send + 'static>(
    tasks: Seq<Deferred<T, E>>,
    r: Result<Vec<T>, Vec<Result<T, E>>>,
    limit: nat,
    num_first: nat,
    wait: bool,
)
    requires
        parallel_outcome(tasks, r, limit, num_first, wait),
        forall|i: int| 0 <= i < tasks.len() ==> only_ok(#[trigger] tasks[i]),
        num_first == 0 || tasks.len() >= num_first,
    ensures
        r is Ok,
{
    let got = choose|got: Seq<Result<T, E>>| {
        &&& ran_from(tasks, got)
        &&& parallel_run(got, tasks.len(), limit, num_first, wait)
        &&& verdict_view(r) == run_verdict(got, run_failed(got, num_first))
    };
    assert forall|i: int| 0 <= i < got.len() implies (#[trigger] got[i]) is Ok by {
        assert(tasks[i].outcome(got[i]));
        assert(only_ok(tasks[i]));
    }
    lemma_all_ok(got);
    if has_err(got) {
        let i = choose|i: int| 0 <= i < got.len() && (#[trigger] got[i]) is Err;
        assert(got[i] is Ok);
    }
}

/// A parallel run that aims at every result fails, with every result, when some
/// task can only fail.
pub proof fn law_parallel_fails_with<T: Send + 'static, E: Send + 'static>(
    tasks: Seq<Deferred<T, E>>,
    r: Result<Vec<T>, Vec<Result<T, E>>>,
    limit: nat,
    wait: bool,
    k: int,
)
    requires
        parallel_outcome(tasks, r, limit, 0, wait),
        0 <= k < tasks.len(),
        only_err(tasks[k]),
    ensures
        r matches Err(es) && es@.len() == tasks.len(),
{
    let got = choose|got: Seq<Result<T, E>>| {
        &&& ran_from(tasks, got)
        &&& parallel_run(got, tasks.len(), limit, 0, wait)
        &&& verdict_view(r) == run_verdict(got, run_failed(got, 0))
    };
    assert(tasks[k].outcome(got[k]));
    assert(only_err(tasks[k]));
    assert(got[k] is Err);
}

} // verus!
