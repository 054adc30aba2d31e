//! Properties of runs of many tasks and of event loops, stated over the
//! specifications that the operations' contracts use.
use vstd::prelude::*;
use crate::promise::{ok_values, all_settled};
use crate::deferred::{lemma_all_ok, series_run, series_verdict, parallel_run, run_failed, count_ok, has_err};
use crate::schedule::{run_verdict, Scheduler};
use crate::event_loop::{Collector, Emit, EventLoop, emitted};

verus! {

/// There are never more values than results.
proof fn lemma_ok_values_len<T, E>(s: Seq<Result<T, E>>)
    ensures
        ok_values(s).len() <= s.len(),
    decreases s.len(),
{
    if s.len() > 0 {
        lemma_ok_values_len(s.drop_last());
    }
}

/// A run in series in which every task ends `Ok` runs every task and gives all
/// their values, in order.
pub proof fn law_series_all_ok<T, E>(ran: Seq<Result<T, E>>, total: nat)
    requires
        series_run(ran, total, 0),
        forall|i: int| 0 <= i < ran.len() ==> (#[trigger] ran[i]) is Ok,
    ensures
        ran.len() == total,
        series_verdict(ran, 0) == Ok::<Seq<T>, Seq<Result<T, E>>>(ok_values(ran)),
        ok_values(ran).len() == total,
{
    if ran.len() > 0 {
        assert(ran[ran.len() - 1] is Ok);
    }
    lemma_all_ok(ran);
}

/// A run in series stops at the first task that fails: that task is the last one
/// run, and the run fails with every result, that one last.
pub proof fn law_series_stops_at_failure<T, E>(ran: Seq<Result<T, E>>, total: nat, num_first: nat, i: int)
    requires
        series_run(ran, total, num_first),
        0 <= i < ran.len(),
        ran[i] is Err,
    ensures
        i == ran.len() - 1,
        series_verdict(ran, num_first) == Err::<Seq<T>, Seq<Result<T, E>>>(ran),
{
}

/// A run in series that aims at `num_first` values gives exactly that many when it
/// succeeds, and fails with every result when fewer tasks end `Ok`.
pub proof fn law_series_first_exact<T, E>(ran: Seq<Result<T, E>>, total: nat, num_first: nat)
    requires
        series_run(ran, total, num_first),
        num_first > 0,
    ensures
        series_verdict(ran, num_first) matches Ok(values) ==> values.len() == num_first,
        count_ok(ran) < num_first ==> series_verdict(ran, num_first) == Err::<Seq<T>, Seq<Result<T, E>>>(ran),
{
    lemma_ok_values_len(ran);
}

/// A parallel run that aims at every result runs every task, and settles as
/// `Promise::all` does on the same results.
pub proof fn law_parallel_runs_all<T, E>(got: Seq<Result<T, E>>, total: nat, limit: nat)
    requires
        parallel_run(got, total, limit, 0, true),
    ensures
        got.len() == total,
        run_verdict(got, run_failed(got, 0)) == all_settled(got),
{
    if has_err(got) {
        let i = choose|i: int| 0 <= i < got.len() && (#[trigger] got[i]) is Err;
        assert(!(got[i] is Ok));
    } else {
        assert forall|i: int| 0 <= i < got.len() implies (#[trigger] got[i]) is Ok by {
            if !(got[i] is Ok) {
                assert(got[i] is Err);
            }
        }
    }
}

/// A parallel run that aims at `num_first` values and does not wait gives exactly
/// `num_first` values when it succeeds.
pub proof fn law_first_no_wait_exact<T, E>(got: Seq<Result<T, E>>, total: nat, limit: nat, num_first: nat)
    requires
        parallel_run(got, total, limit, num_first, false),
        num_first > 0,
        !run_failed(got, num_first),
    ensures
        run_verdict(got, false) matches Ok(values) && values.len() == num_first,
{
}

/// A parallel run that aims at `num_first` values and gets fewer runs every task and
/// fails with every result.
pub proof fn law_first_unreached_fails<T, E>(got: Seq<Result<T, E>>, total: nat, limit: nat, num_first: nat, wait: bool)
    requires
        parallel_run(got, total, limit, num_first, wait),
        num_first > 0,
        count_ok(got) < num_first,
    ensures
        got.len() == total,
        run_verdict(got, run_failed(got, num_first)) == Err::<Seq<T>, Seq<Result<T, E>>>(got),
{
}

/// A parallel run that aims at `num_first` values, waits for the tasks running, and
/// lets at most `limit` run, gives at least `num_first` and fewer than
/// `num_first + limit` values when it succeeds.
pub proof fn law_first_wait_bound<T, E>(got: Seq<Result<T, E>>, total: nat, limit: nat, num_first: nat)
    requires
        parallel_run(got, total, limit, num_first, true),
        num_first > 0,
        limit > 0,
        !run_failed(got, num_first),
    ensures
        run_verdict(got, false) matches Ok(values) && num_first <= values.len() < num_first + limit,
{
    let reach = choose|reach: int|
        0 < reach <= got.len() && count_ok(#[trigger] got.take(reach)) == num_first && got[reach - 1] is Ok
            && got.len() == if total < reach - 1 + limit { total as int } else { reach - 1 + limit };
    lemma_count_split(got, reach);
    lemma_ok_values_len(got.skip(reach));
}

/// The values of a sequence are those of a prefix followed by those of the rest.
pub(crate) proof fn lemma_count_split<T, E>(s: Seq<Result<T, E>>, k: int)
    requires
        0 <= k <= s.len(),
    ensures
        count_ok(s) == count_ok(s.take(k)) + count_ok(s.skip(k)),
    decreases s.len() - k,
{
    if k < s.len() {
        lemma_count_split(s, k + 1);
        let a = s.take(k + 1);
        assert(a.drop_last() == s.take(k));
        let b = s.skip(k);
        lemma_count_tail(b);
        assert(b.skip(1) == s.skip(k + 1));
        assert(b[0] == s[k]);
        assert(a.last() == s[k]);
    } else {
        assert(s.take(k) == s);
        assert(s.skip(k) == Seq::<Result<T, E>>::empty());
    }
}

/// The values of a non-empty sequence are those of its first result followed by
/// those of the rest.
proof fn lemma_count_tail<T, E>(s: Seq<Result<T, E>>)
    requires
        s.len() > 0,
    ensures
        count_ok(s) == count_ok(s.skip(1)) + if s[0] is Ok { 1int } else { 0int },
    decreases s.len(),
{
    if s.len() > 1 {
        let p = s.drop_last();
        lemma_count_tail(p);
        assert(p.skip(1) == s.skip(1).drop_last());
        assert(s.skip(1).last() == s.last());
        assert(p[0] == s[0]);
    } else {
        assert(s.skip(1) == Seq::<Result<T, E>>::empty());
        assert(s.drop_last() == Seq::<Result<T, E>>::empty());
    }
}

/// A finished event loop takes no more events: every event offered to it is
/// handed back.
pub proof fn law_finished_loop_refuses<Ev>(c: Collector<Ev>)
    requires
        c.wf(),
        c.finished(),
    ensures
        !c.admits(),
{
}

/// A loop that passes events on collects each event it takes, unchanged, after
/// those it collected before.
pub proof fn law_pass_on_collects_in_order<Ev>(before: EventLoop<Ev>, after: EventLoop<Ev>, ev: Ev)
    requires
        forall|e: Ev, out: Emit<Ev>| #[trigger] before.treats(e, out) == (out == Emit::Event(e)),
        emitted(before, after, ev, true),
    ensures
        after.events() == before.events().push(ev),
        after.running(),
{
    let out = choose|out: Emit<Ev>| #[trigger] before.treats(ev, out) && match out {
        Emit::Event(e) => after.events() == before.events().push(e) && !after.stopped(),
        Emit::Continue => after.events() == before.events() && !after.stopped(),
        Emit::Stop => after.events() == before.events() && after.stopped(),
    };
    assert(out == Emit::Event(ev));
}

/// A loop that no longer runs (it was finished, or its treatment said `Stop`)
/// refuses every event and stays as it was.
pub proof fn law_stopped_loop_refuses<Ev>(before: EventLoop<Ev>, after: EventLoop<Ev>, ev: Ev, accepted: bool)
    requires
        before.finished() || before.stopped(),
        emitted(before, after, ev, accepted),
    ensures
        !accepted,
        after.events() == before.events(),
        !after.running(),
{
}

/// The events that the outputs of a treatment add, in order.
pub open spec fn collected<Ev>(outs: Seq<Emit<Ev>>) -> Seq<Ev>
    decreases outs.len(),
{
    if outs.len() == 0 {
        Seq::empty()
    } else {
        let rest = collected(outs.drop_last());
        match outs.last() {
            Emit::Event(e) => rest.push(e),
            _ => rest,
        }
    }
}

/// No output of `outs` is `Stop`.
pub open spec fn no_stop<Ev>(outs: Seq<Emit<Ev>>) -> bool {
    forall|j: int| 0 <= j < outs.len() ==> !((#[trigger] outs[j]) is Stop)
}

/// `loops` are the states of one loop along the emits of `evs`, in order, and
/// `accepted` says which of them it took.
pub open spec fn emit_run<Ev>(loops: Seq<EventLoop<Ev>>, evs: Seq<Ev>, accepted: Seq<bool>) -> bool {
    &&& loops.len() == evs.len() + 1
    &&& accepted.len() == evs.len()
    &&& forall|i: int| #![trigger accepted[i]] 0 <= i < evs.len() ==> emitted(loops[i], loops[i + 1], evs[i], accepted[i])
}

/// What a run of emits on a running loop comes to: `outs` holds, for each event,
/// what the treatment gave for it (`Continue` for a refused one); an event is
/// taken exactly when no earlier output said `Stop`; the loop collects the `Event`
/// outputs, in order; it still runs exactly when no output said `Stop`.
pub open spec fn run_outputs<Ev>(loops: Seq<EventLoop<Ev>>, evs: Seq<Ev>, accepted: Seq<bool>, outs: Seq<Emit<Ev>>) -> bool {
    &&& outs.len() == evs.len()
    &&& forall|i: int| #![trigger accepted[i]] 0 <= i < evs.len() ==> accepted[i] == no_stop(outs.take(i))
    &&& forall|i: int| #![trigger outs[i]] 0 <= i < evs.len() ==> if accepted[i] {
        loops[0].treats(evs[i], outs[i])
    } else {
        outs[i] is Continue
    }
    &&& loops.last().events() == loops[0].events() + collected(outs)
    &&& loops.last().running() == no_stop(outs)
    &&& loops.last().finished() == loops[0].finished()
    &&& forall|e: Ev, out: Emit<Ev>| #[trigger] loops.last().treats(e, out) == loops[0].treats(e, out)
}

/// The outputs of a run of emits on a running loop.
proof fn lemma_emit_run<Ev>(loops: Seq<EventLoop<Ev>>, evs: Seq<Ev>, accepted: Seq<bool>) -> (outs: Seq<Emit<Ev>>)
    requires
        emit_run(loops, evs, accepted),
        loops[0].running(),
    ensures
        run_outputs(loops, evs, accepted, outs),
    decreases evs.len(),
{
    let n = evs.len() as int;
    if n == 0 {
        let outs = Seq::<Emit<Ev>>::empty();
        assert(loops[0].events() + collected(outs) == loops[0].events());
        outs
    } else {
        let pl = loops.take(n);
        let pe = evs.take(n - 1);
        let pa = accepted.take(n - 1);
        assert forall|i: int| #![trigger pa[i]] 0 <= i < pe.len() implies emitted(pl[i], pl[i + 1], pe[i], pa[i]) by {
            assert(accepted[i] == pa[i]);
            assert(emitted(loops[i], loops[i + 1], evs[i], accepted[i]));
        }
        let outs0 = lemma_emit_run(pl, pe, pa);
        let before = loops[n - 1];
        let after = loops[n];
        assert(pl.last() == before);
        assert(accepted[n - 1] == accepted[n - 1]);
        assert(emitted(before, after, evs[n - 1], accepted[n - 1]));
        let out: Emit<Ev> = if before.running() {
            choose|out: Emit<Ev>| #[trigger] before.treats(evs[n - 1], out) && match out {
                Emit::Event(e) => after.events() == before.events().push(e) && !after.stopped(),
                Emit::Continue => after.events() == before.events() && !after.stopped(),
                Emit::Stop => after.events() == before.events() && after.stopped(),
            }
        } else {
            Emit::Continue
        };
        let outs = outs0.push(out);
        assert(outs.drop_last() == outs0);
        assert(outs.take(n - 1) == outs0);
        assert forall|i: int| #![trigger accepted[i]] 0 <= i < evs.len() implies accepted[i] == no_stop(outs.take(i)) by {
            if i < n - 1 {
                assert(pa[i] == accepted[i]);
                assert(outs.take(i) == outs0.take(i));
            }
        }
        assert forall|i: int| #![trigger outs[i]] 0 <= i < evs.len() implies if accepted[i] {
            loops[0].treats(evs[i], outs[i])
        } else {
            outs[i] is Continue
        } by {
            if i < n - 1 {
                assert(pa[i] == accepted[i]);
                assert(pe[i] == evs[i]);
                assert(outs[i] == outs0[i]);
                assert(pl[0] == loops[0]);
            } else {
                assert(outs[i] == out);
                if accepted[i] {
                    assert(before.treats(evs[i], out) == loops[0].treats(evs[i], out));
                }
            }
        }
        if no_stop(outs0) && !(out is Stop) {
            assert forall|j: int| 0 <= j < outs.len() implies !((#[trigger] outs[j]) is Stop) by {
                if j < n - 1 {
                    assert(outs[j] == outs0[j]);
                }
            }
        }
        if !no_stop(outs0) {
            let j = choose|j: int| 0 <= j < outs0.len() && ((#[trigger] outs0[j]) is Stop);
            assert(outs[j] == outs0[j]);
        }
        if out is Stop {
            assert(outs[n - 1] == out);
        }
        assert(loops.last() == after);
        assert(loops[0].events() + collected(outs) == (loops[0].events() + collected(outs0)) + collected(outs).skip(collected(outs0).len() as int)) by {
            assert(collected(outs).take(collected(outs0).len() as int) == collected(outs0));
        }
        outs
    }
}

/// What a run of emits on a running loop comes to: each event is taken exactly when
/// no earlier treatment said `Stop`, each event taken is treated once, in order, and
/// the loop collects exactly the events the treatments gave, in order.
pub proof fn law_emit_run<Ev>(loops: Seq<EventLoop<Ev>>, evs: Seq<Ev>, accepted: Seq<bool>)
    requires
        emit_run(loops, evs, accepted),
        loops[0].running(),
    ensures
        exists|outs: Seq<Emit<Ev>>| run_outputs(loops, evs, accepted, outs),
{
    let outs = lemma_emit_run(loops, evs, accepted);
}

/// Outputs that each pass an event on collect exactly those events.
proof fn lemma_collected_passed<Ev>(outs: Seq<Emit<Ev>>, evs: Seq<Ev>)
    requires
        outs.len() == evs.len(),
        forall|i: int| 0 <= i < outs.len() ==> #[trigger] outs[i] == Emit::Event(evs[i]),
    ensures
        collected(outs) == evs,
    decreases outs.len(),
{
    if outs.len() > 0 {
        let n = outs.len() - 1;
        assert forall|i: int| 0 <= i < outs.drop_last().len() implies #[trigger] outs.drop_last()[i] == Emit::Event(evs.drop_last()[i]) by {
            assert(outs[i] == Emit::Event(evs[i]));
        }
        lemma_collected_passed(outs.drop_last(), evs.drop_last());
        assert(outs[n] == Emit::Event(evs[n]));
        assert(evs.drop_last().push(evs[n]) == evs);
    }
}

/// Outputs that all say `Continue` collect nothing.
proof fn lemma_collected_none<Ev>(outs: Seq<Emit<Ev>>)
    requires
        forall|i: int| 0 <= i < outs.len() ==> (#[trigger] outs[i]) is Continue,
    ensures
        collected(outs) == Seq::<Ev>::empty(),
    decreases outs.len(),
{
    if outs.len() > 0 {
        assert forall|i: int| 0 <= i < outs.drop_last().len() implies (#[trigger] outs.drop_last()[i]) is Continue by {
            assert(outs[i] is Continue);
        }
        lemma_collected_none(outs.drop_last());
        assert(outs[outs.len() - 1] is Continue);
    }
}

/// A treatment that never says `Stop` lets a running loop take every event.
proof fn lemma_never_stopped<Ev>(loops: Seq<EventLoop<Ev>>, evs: Seq<Ev>, accepted: Seq<bool>, outs: Seq<Emit<Ev>>)
    requires
        run_outputs(loops, evs, accepted, outs),
        forall|ev: Ev| !(#[trigger] loops[0].treats(ev, Emit::Stop)),
    ensures
        forall|i: int| 0 <= i < outs.len() ==> !((#[trigger] outs[i]) is Stop),
        forall|i: int| 0 <= i < evs.len() ==> #[trigger] accepted[i],
        no_stop(outs),
{
    assert forall|i: int| 0 <= i < outs.len() implies !((#[trigger] outs[i]) is Stop) by {
        if accepted[i] {
            assert(loops[0].treats(evs[i], outs[i]));
            if outs[i] is Stop {
                assert(outs[i] == Emit::<Ev>::Stop);
            }
        }
    }
    assert forall|i: int| 0 <= i < evs.len() implies #[trigger] accepted[i] by {
        assert forall|j: int| 0 <= j < outs.take(i).len() implies !((#[trigger] outs.take(i)[j]) is Stop) by {
            assert(outs.take(i)[j] == outs[j]);
        }
    }
}

/// A loop made by `new` takes every event emitted while it runs and collects each,
/// unchanged, in the order emitted: it behaves as `on_managed` with a treatment
/// that passes every event on.
pub proof fn law_pass_on_run<Ev>(loops: Seq<EventLoop<Ev>>, evs: Seq<Ev>, accepted: Seq<bool>)
    requires
        emit_run(loops, evs, accepted),
        loops[0].running(),
        forall|ev: Ev, out: Emit<Ev>| #[trigger] loops[0].treats(ev, out) == (out == Emit::Event(ev)),
    ensures
        forall|i: int| 0 <= i < evs.len() ==> #[trigger] accepted[i],
        loops.last().events() == loops[0].events() + evs,
        loops.last().running(),
{
    let outs = lemma_emit_run(loops, evs, accepted);
    lemma_never_stopped(loops, evs, accepted, outs);
    assert forall|i: int| 0 <= i < outs.len() implies #[trigger] outs[i] == Emit::Event(evs[i]) by {
        assert(accepted[i]);
        assert(loops[0].treats(evs[i], outs[i]));
    }
    lemma_collected_passed(outs, evs);
}

/// A loop made by `on(f)` takes every event emitted while it runs, hands each to
/// `f` (so `f`'s postcondition holds of it), and collects nothing.
pub proof fn law_observe_run<Ev, F: Fn(Ev)>(loops: Seq<EventLoop<Ev>>, evs: Seq<Ev>, accepted: Seq<bool>, f: F)
    requires
        emit_run(loops, evs, accepted),
        loops[0].running(),
        forall|ev: Ev, out: Emit<Ev>| #[trigger] loops[0].treats(ev, out) == (out is Continue && f.ensures((ev,), ())),
    ensures
        forall|i: int| 0 <= i < evs.len() ==> #[trigger] accepted[i] && f.ensures((evs[i],), ()),
        loops.last().events() == loops[0].events(),
        loops.last().running(),
{
    let outs = lemma_emit_run(loops, evs, accepted);
    lemma_never_stopped(loops, evs, accepted, outs);
    assert forall|i: int| 0 <= i < outs.len() implies (#[trigger] outs[i]) is Continue by {
        assert(accepted[i]);
        assert(loops[0].treats(evs[i], outs[i]));
    }
    assert forall|i: int| 0 <= i < evs.len() implies #[trigger] accepted[i] && f.ensures((evs[i],), ()) by {
        assert(outs[i] is Continue);
        assert(loops[0].treats(evs[i], outs[i]));
    }
    lemma_collected_none(outs);
    assert(loops[0].events() + Seq::<Ev>::empty() == loops[0].events());
}

/// A loop made by `on_managed(f)` takes each event emitted until `f` says `Stop`,
/// and none after; `f`'s postcondition holds of each event it took and what it gave;
/// the loop collects exactly the events that `f` gave, in order.
pub proof fn law_managed_run<Ev, F: Fn(Ev) -> Emit<Ev>>(loops: Seq<EventLoop<Ev>>, evs: Seq<Ev>, accepted: Seq<bool>, f: F)
    requires
        emit_run(loops, evs, accepted),
        loops[0].running(),
        forall|ev: Ev, out: Emit<Ev>| #[trigger] loops[0].treats(ev, out) == f.ensures((ev,), out),
    ensures
        exists|outs: Seq<Emit<Ev>>| {
            &&& run_outputs(loops, evs, accepted, outs)
            &&& forall|i: int| 0 <= i < evs.len() && #[trigger] accepted[i] ==> f.ensures((evs[i],), outs[i])
        },
{
    let outs = lemma_emit_run(loops, evs, accepted);
    assert forall|i: int| 0 <= i < evs.len() && #[trigger] accepted[i] implies f.ensures((evs[i],), outs[i]) by {
        assert(loops[0].treats(evs[i], outs[i]));
    }
}

/// `t` has the same run parameters as `s`.
pub open spec fn same_run(s: Scheduler, t: Scheduler) -> bool {
    &&& t.total() == s.total()
    &&& t.limit() == s.limit()
    &&& t.num_first() == s.num_first()
    &&& t.waits() == s.waits()
}

/// `s` is a run of which no task was started.
pub open spec fn fresh(s: Scheduler) -> bool {
    &&& s.wf()
    &&& s.launched() == 0
    &&& s.running() == 0
    &&& s.received_ok() == 0
    &&& !s.any_failed()
}

/// `t` is `s` once one of its running tasks ended, with `Ok` when `ok`
/// (what `Scheduler::complete` does).
pub open spec fn completed(s: Scheduler, t: Scheduler, ok: bool) -> bool {
    &&& same_run(s, t)
    &&& s.running() > 0
    &&& t.running() == s.running() - 1
    &&& t.launched() == s.launched()
    &&& t.received_ok() == s.received_ok() + if ok { 1int } else { 0int }
    &&& t.any_failed() == (s.any_failed() || !ok)
}

/// `t` is `s` once its next batch of tasks was started (what `Scheduler::launch` does).
pub open spec fn started(s: Scheduler, t: Scheduler) -> bool {
    &&& same_run(s, t)
    &&& t.launched() == s.launched() + s.batch()
    &&& t.running() == s.running() + s.batch()
    &&& t.received_ok() == s.received_ok()
    &&& t.any_failed() == s.any_failed()
}

/// `states` are the states of a parallel run after each round, whatever order the
/// tasks end in: first a batch is started on a fresh run; then, while the run does
/// not stop early, one running task ends (`Ok` as `oks` says) and the next batch is
/// started. `mids` are the states between the two halves of each round.
pub open spec fn parallel_rounds(s0: Scheduler, states: Seq<Scheduler>, mids: Seq<Scheduler>, oks: Seq<bool>) -> bool {
    &&& fresh(s0)
    &&& states.len() == oks.len() + 1
    &&& mids.len() == oks.len()
    &&& started(s0, states[0])
    &&& forall|i: int| #![trigger oks[i]] 0 <= i < oks.len() ==> {
        &&& !(!states[i].waits() && states[i].reached())
        &&& completed(states[i], mids[i], oks[i])
        &&& started(mids[i], states[i + 1])
    }
}

/// What holds after every round of a parallel run.
pub open spec fn round_inv(s: Scheduler) -> bool {
    &&& s.wf()
    &&& !s.waits() && s.num_first() > 0 ==> s.received_ok() <= s.num_first()
    &&& s.waits() && s.limit() > 0 && s.reached() ==> s.received_ok() + s.running() < s.num_first() + s.limit()
    &&& s.limit() == 0 && !s.reached() ==> s.launched() == s.total()
}

/// Starting a batch keeps the counters consistent, and without a limit starts every
/// task left unless the aim is reached.
proof fn lemma_start_keeps(s: Scheduler, t: Scheduler)
    requires
        s.wf(),
        started(s, t),
    ensures
        t.wf(),
        t.limit() == 0 && !t.reached() ==> t.launched() == t.total(),
{
}

/// Every round of a parallel run keeps `round_inv`.
proof fn lemma_rounds_inv(s0: Scheduler, states: Seq<Scheduler>, mids: Seq<Scheduler>, oks: Seq<bool>, k: int)
    requires
        parallel_rounds(s0, states, mids, oks),
        0 <= k < states.len(),
    ensures
        round_inv(states[k]),
        same_run(s0, states[k]),
    decreases k,
{
    if k == 0 {
        lemma_start_keeps(s0, states[0]);
    } else {
        let i = k - 1;
        lemma_rounds_inv(s0, states, mids, oks, i);
        let ok = oks[i];
        assert({
            &&& !(!states[i].waits() && states[i].reached())
            &&& completed(states[i], mids[i], oks[i])
            &&& started(mids[i], states[i + 1])
        });
        assert(i + 1 == k);
        let s = states[i];
        let m = mids[i];
        let t = states[k];
        assert(completed(s, m, oks[i]) && started(m, t));
        assert(m.wf());
        lemma_start_keeps(m, t);
    }
}

/// Whatever order the tasks of a parallel run end in: at no time do more tasks run
/// than the limit lets; without a limit every task is started at once until the aim
/// is reached; a run that does not wait never gets more than `num_first` results
/// `Ok`; a run that waits, with a limit, gets fewer than `num_first + limit` once
/// the aim is reached.
pub proof fn law_parallel_any_order(s0: Scheduler, states: Seq<Scheduler>, mids: Seq<Scheduler>, oks: Seq<bool>)
    requires
        parallel_rounds(s0, states, mids, oks),
    ensures
        forall|k: int| 0 <= k < states.len() ==> {
            &&& (#[trigger] states[k]).limit() > 0 ==> states[k].running() <= states[k].limit()
            &&& states[k].launched() <= states[k].total()
            &&& states[k].limit() == 0 && !states[k].reached() ==> states[k].launched() == states[k].total()
            &&& !states[k].waits() && states[k].num_first() > 0 ==> states[k].received_ok() <= states[k].num_first()
            &&& states[k].waits() && states[k].limit() > 0 && states[k].reached()
                ==> states[k].received_ok() < states[k].num_first() + states[k].limit()
        },
{
    assert forall|k: int| 0 <= k < states.len() implies {
        &&& (#[trigger] states[k]).limit() > 0 ==> states[k].running() <= states[k].limit()
        &&& states[k].launched() <= states[k].total()
        &&& states[k].limit() == 0 && !states[k].reached() ==> states[k].launched() == states[k].total()
        &&& !states[k].waits() && states[k].num_first() > 0 ==> states[k].received_ok() <= states[k].num_first()
        &&& states[k].waits() && states[k].limit() > 0 && states[k].reached()
            ==> states[k].received_ok() < states[k].num_first() + states[k].limit()
    } by {
        lemma_rounds_inv(s0, states, mids, oks, k);
    }
}

} // verus!
