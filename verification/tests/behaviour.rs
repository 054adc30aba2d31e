use std::sync::atomic::{AtomicBool, AtomicUsize, Ordering};
use std::sync::{Arc, Mutex};

use asynchronous::event_loop::Collector;
use asynchronous::schedule::{assemble, Scheduler};
use asynchronous::{ControlFlow, Deferred, Emit, EventLoop, Promise};

fn oks(values: &[u32]) -> Vec<Deferred<u32, &'static str>> {
    values.iter().map(|&v| Deferred::<u32, &str>::new(move || Ok(v))).collect()
}

#[test]
fn deferred_runs_only_when_synced() {
    let ran = Arc::new(AtomicBool::new(false));
    let flag = ran.clone();
    let d = Deferred::<u32, &str>::new(move || {
        flag.store(true, Ordering::SeqCst);
        Ok(1)
    });
    assert!(!ran.load(Ordering::SeqCst));
    assert_eq!(d.sync(), Ok(1));
    assert!(ran.load(Ordering::SeqCst));
}

#[test]
fn deferred_then_either_takes_the_error_branch() {
    let r = Deferred::<f64, &str>::new(|| Err("Final error"))
        .then_either(|_res| -> Result<u32, u64> { unreachable!() }, |err| {
            assert_eq!(err, "Final error");
            Ok(35)
        })
        .sync();
    assert_eq!(r, Ok(35));
}

#[test]
fn deferred_then_either_takes_the_value_branch() {
    let r = Deferred::<u32, &str>::new(|| Ok(3))
        .then_either(|res| -> Result<u32, u64> { Ok(res * 10) }, |_err| Err(1))
        .sync();
    assert_eq!(r, Ok(30));
}

#[test]
fn deferred_chain_sees_the_error() {
    let r = Deferred::<u32, &str>::new(|| Err("Final error"))
        .chain(|res| {
            assert!(res.is_err());
            res
        })
        .then_either(|_res| -> Result<u32, u64> { unreachable!() }, |err| {
            assert_eq!(err, "Final error");
            Ok(35)
        })
        .sync();
    assert_eq!(r, Ok(35));
}

#[test]
fn deferred_success_passes_errors_and_fail_passes_values() {
    let r = Deferred::<u32, u32>::new(|| Err(32))
        .success(|_res| -> Result<u32, u32> { unreachable!() })
        .fail(|err| Ok(err + 1))
        .sync();
    assert_eq!(r, Ok(33));
    let r = Deferred::<u32, u32>::new(|| Ok(5))
        .fail(|_err| -> Result<u32, u32> { unreachable!() })
        .success(|res| Ok(res * 2))
        .sync();
    assert_eq!(r, Ok(10));
}

#[test]
fn deferred_finally_hands_the_result() {
    let seen = Arc::new(Mutex::new(None));
    let s = seen.clone();
    Deferred::<u32, &str>::new(|| Ok(32)).finally(move |res| {
        *s.lock().unwrap() = Some(res);
    });
    assert_eq!(*seen.lock().unwrap(), Some(Ok(32)));
    let s = seen.clone();
    Deferred::<u32, &str>::new(|| Err("e")).finally_sync(move |res| {
        *s.lock().unwrap() = Some(res);
    });
    assert_eq!(*seen.lock().unwrap(), Some(Err("e")));
}

#[test]
fn readme_deferred_example() {
    let d_a = Deferred::<&str, &str>::new(|| Ok("a"));
    let p_b = Promise::<&str, &str>::new(|| Ok("b"));
    let d1 = Deferred::<u32, &str>::new(|| Ok(1u32));
    let d2 = Deferred::<u32, &str>::new(|| Err("Mock Error"));
    let d3 = Deferred::<u32, &str>::new(|| Ok(3u32));
    let d4 = Deferred::<u32, &str>::new(|| Ok(4u32));
    let d5 = Deferred::<u32, &str>::new(|| Ok(5u32));

    let promise = Deferred::vec_to_promise(vec![d1, d2, d3], ControlFlow::Parallel);

    assert_eq!(
        "ab",
        d_a.to_promise()
            .success(|res_a| p_b.success(move |res_b| Ok(res_a.to_string() + res_b)).sync())
            .sync()
            .unwrap()
    );

    promise
        .success(|res| Ok(res))
        .fail(|error| {
            assert_eq!(error, vec![Ok(1u32), Err("Mock Error"), Ok(3u32)]);
            Deferred::vec_to_promise(vec![d4, d5], ControlFlow::Series).sync()
        })
        .finally_sync(|res| {
            assert_eq!(res.unwrap(), vec![4u32, 5u32]);
        });
}

#[test]
fn promise_then_either_and_chain() {
    let r = Promise::<f64, &str>::new(|| Err("Final error"))
        .chain(|res| {
            assert!(res.is_err());
            res
        })
        .then_either(|_res| -> Result<u32, u64> { unreachable!() }, |err| {
            assert_eq!(err, "Final error");
            Ok(35)
        })
        .sync();
    assert_eq!(r, Ok(35));
}

#[test]
fn promise_finally_hands_the_result() {
    let seen = Arc::new(Mutex::new(None));
    let s = seen.clone();
    Promise::<u32, &str>::new(|| Ok(7)).finally(move |res| {
        *s.lock().unwrap() = Some(res);
    });
    assert_eq!(*seen.lock().unwrap(), Some(Ok(7)));
}

#[test]
fn promise_all_keeps_order_of_results() {
    let ps: Vec<Promise<u32, &str>> = (0..5u32).map(|i| Promise::new(move || Ok(i))).collect();
    assert_eq!(Promise::all(ps).sync().unwrap(), vec![0, 1, 2, 3, 4]);
    let ps = vec![Promise::<u32, &str>::new(|| Ok(1)), Promise::new(|| Err("x")), Promise::new(|| Ok(3))];
    assert_eq!(Promise::all(ps).sync(), Err(vec![Ok(1), Err("x"), Ok(3)]));
    let empty: Vec<Promise<u32, &str>> = Vec::new();
    assert_eq!(Promise::all(empty).sync(), Ok(vec![]));
}

#[test]
fn series_stops_after_first_failure() {
    let count = Arc::new(AtomicUsize::new(0));
    let mut v = Vec::new();
    for i in 0..4u32 {
        let c = count.clone();
        v.push(Deferred::<u32, &str>::new(move || {
            c.fetch_add(1, Ordering::SeqCst);
            if i == 1 { Err("boom") } else { Ok(i) }
        }));
    }
    let r = Deferred::vec_to_promise(v, ControlFlow::Series).sync();
    assert_eq!(r, Err(vec![Ok(0), Err("boom")]));
    assert_eq!(count.load(Ordering::SeqCst), 2);
}

#[test]
fn series_all_ok_gives_every_value() {
    let r = Deferred::vec_to_promise(oks(&[3, 1, 2]), ControlFlow::Series).sync();
    assert_eq!(r, Ok(vec![3, 1, 2]));
    let r = Deferred::vec_to_promise(oks(&[]), ControlFlow::Series).sync();
    assert_eq!(r, Ok(vec![]));
}

#[test]
fn series_first_runs_only_what_it_needs() {
    let count = Arc::new(AtomicUsize::new(0));
    let mut v = Vec::new();
    for i in 0..6u32 {
        let c = count.clone();
        v.push(Deferred::<u32, &str>::new(move || {
            c.fetch_add(1, Ordering::SeqCst);
            Ok(i)
        }));
    }
    let r = Deferred::first_to_promise(3, true, v, ControlFlow::Series).sync();
    assert_eq!(r, Ok(vec![0, 1, 2]));
    assert_eq!(count.load(Ordering::SeqCst), 3);
}

#[test]
fn parallel_runs_every_task_and_settles_as_all() {
    let mut v = oks(&[1, 2]);
    v.push(Deferred::new(|| Err("x")));
    v.extend(oks(&[4]));
    let r = Deferred::vec_to_promise(v, ControlFlow::ParallelLimit(2)).sync();
    assert_eq!(r, Err(vec![Ok(1), Ok(2), Err("x"), Ok(4)]));
    let ps = vec![Promise::<u32, &str>::new(|| Ok(1)), Promise::new(|| Ok(2)), Promise::new(|| Err("x")), Promise::new(|| Ok(4))];
    assert_eq!(Promise::all(ps).sync(), Err(vec![Ok(1), Ok(2), Err("x"), Ok(4)]));
    let r = Deferred::vec_to_promise(oks(&[5, 6, 7]), ControlFlow::Parallel).sync();
    assert_eq!(r, Ok(vec![5, 6, 7]));
}

#[test]
fn first_without_wait_gives_exactly_num_first() {
    let r = Deferred::first_to_promise(4, false, oks(&[0, 1, 2, 3, 4, 5, 6, 7, 8, 9]), ControlFlow::ParallelLimit(3)).sync();
    assert_eq!(r, Ok(vec![0, 1, 2, 3]));
}

#[test]
fn first_with_wait_collects_the_tasks_running() {
    let r = Deferred::first_to_promise(3, true, oks(&[0, 1, 2, 3, 4, 5, 6, 7, 8, 9]), ControlFlow::ParallelLimit(2)).sync();
    assert_eq!(r, Ok(vec![0, 1, 2, 3]));
}

#[test]
fn first_with_cpus_limit() {
    let r = Deferred::first_to_promise(5, true, oks(&(0..40).collect::<Vec<u32>>()), ControlFlow::ParallelCPUS)
        .sync()
        .unwrap();
    assert!(r.len() >= 5);
    assert!(r.len() <= 4 + num_cpus::get());
    assert!(r.len() < 40 || num_cpus::get() >= 36);
}

#[test]
fn first_fails_with_every_result_when_too_few_succeed() {
    let mut v = oks(&[1]);
    v.push(Deferred::new(|| Err("x")));
    let r = Deferred::first_to_promise(2, false, v, ControlFlow::Parallel).sync();
    assert_eq!(r, Err(vec![Ok(1), Err("x")]));
}

#[test]
fn scheduler_respects_the_limit() {
    let mut s = Scheduler::new(5, 2, 0, true);
    assert_eq!(s.launch(), 2);
    assert_eq!(s.running_now(), 2);
    assert_eq!(s.launch(), 0);
    s.complete(true);
    assert_eq!(s.running_now(), 1);
    assert_eq!(s.launch(), 1);
    s.complete(false);
    s.complete(true);
    assert_eq!(s.launch(), 2);
    s.complete(true);
    s.complete(true);
    assert_eq!(s.launch(), 0);
    assert_eq!(s.running_now(), 0);
    assert!(s.failed());
    assert!(!s.stops_early());
}

#[test]
fn scheduler_stops_at_the_aim_without_wait() {
    let mut s = Scheduler::new(10, 0, 2, false);
    assert_eq!(s.launch(), 10);
    s.complete(true);
    assert!(!s.stops_early());
    s.complete(false);
    s.complete(true);
    assert!(s.stops_early());
    assert!(!s.failed());
    assert_eq!(s.launch(), 0);
}

#[test]
fn assemble_skips_missing_slots() {
    let slots: Vec<Option<Result<u32, &str>>> = vec![Some(Ok(1)), None, Some(Err("x")), Some(Ok(3))];
    assert_eq!(assemble(slots.clone(), false), Ok(vec![1, 3]));
    assert_eq!(assemble(slots, true), Err(vec![Ok(1), Err("x"), Ok(3)]));
}

#[test]
fn collector_applies_and_finishes() {
    let mut c = Collector::<u32>::new();
    assert!(c.is_active());
    c.apply(Emit::Event(1));
    c.apply(Emit::Continue);
    c.apply(Emit::Event(2));
    assert!(c.is_active());
    c.finish();
    assert!(!c.is_active());
    c.finish();
    assert_eq!(c.into_events(), vec![1, 2]);
    let mut c = Collector::<u32>::new();
    c.apply(Emit::Stop);
    assert!(!c.is_active());
    assert_eq!(c.into_events(), Vec::<u32>::new());
}

#[test]
fn emit_step_follows_the_output() {
    let mut el = EventLoop::new();
    assert!(el.emit_step(Emit::Event("A")));
    assert!(el.emit_step(Emit::Continue));
    assert!(!el.emit_step(Emit::Stop));
    assert!(el.is_active());
    let mut el = el.finish();
    assert!(!el.is_active());
    assert!(!el.emit_step(Emit::Event("B")));
    assert_eq!(el.to_promise().sync(), Ok(vec!["A"]));
}

#[test]
fn to_promise_ends_a_running_loop() {
    let mut el = EventLoop::new();
    assert_eq!(el.emit(1u32), Ok(()));
    assert_eq!(el.emit(2u32), Ok(()));
    assert_eq!(el.to_promise().sync(), Ok(vec![1, 2]));
}

#[test]
fn stop_ends_the_loop() {
    let mut el = EventLoop::on_managed(|ev: u32| if ev == 0 { Emit::Stop } else { Emit::Event(ev * 2) });
    assert_eq!(el.emit(3), Ok(()));
    assert!(el.is_active());
    assert_eq!(el.emit(0), Ok(()));
    assert!(!el.is_active());
    assert_eq!(el.emit(4), Err(4));
    assert_eq!(el.to_promise().sync(), Ok(vec![6]));
}

#[test]
fn first_series_fails_when_too_few_succeed() {
    let r = Deferred::first_to_promise(7, true, oks(&[0, 1, 2, 3, 4]), ControlFlow::Series).sync();
    assert_eq!(r, Err(vec![Ok(0), Ok(1), Ok(2), Ok(3), Ok(4)]));
    let r = Deferred::first_to_promise(7, false, oks(&[0, 1, 2, 3, 4]), ControlFlow::Series).sync();
    assert_eq!(r, Err(vec![Ok(0), Ok(1), Ok(2), Ok(3), Ok(4)]));
}

#[test]
fn finally_sync_hands_the_result_once() {
    let calls = Arc::new(Mutex::new(Vec::new()));
    let c = calls.clone();
    Deferred::<u32, &str>::new(|| Ok(88u32)).to_promise().finally_sync(move |r| c.lock().unwrap().push(r));
    assert_eq!(*calls.lock().unwrap(), vec![Ok(88u32)]);
}

#[test]
fn on_hands_every_event_and_collects_none() {
    let seen = Arc::new(Mutex::new(Vec::<String>::new()));
    let s = seen.clone();
    let mut el = EventLoop::on(move |ev: String| s.lock().unwrap().push(ev));
    assert!(el.emit("BCN".to_string()).is_ok());
    assert!(el.emit("MAD".to_string()).is_ok());
    let mut el = el.finish();
    assert_eq!(el.emit("X".to_string()), Err("X".to_string()));
    assert_eq!(el.to_promise().sync().unwrap().len(), 0);
    assert_eq!(*seen.lock().unwrap(), vec!["BCN".to_string(), "MAD".to_string()]);
}

#[test]
fn first_unreached_runs_every_task() {
    let count = Arc::new(AtomicUsize::new(0));
    let mut v = Vec::new();
    for i in 0..5u32 {
        let c = count.clone();
        v.push(Deferred::<u32, &str>::new(move || {
            c.fetch_add(1, Ordering::SeqCst);
            if i % 2 == 0 { Ok(i) } else { Err("odd") }
        }));
    }
    let r = Deferred::first_to_promise(4, false, v, ControlFlow::ParallelLimit(2)).sync();
    assert_eq!(r, Err(vec![Ok(0), Err("odd"), Ok(2), Err("odd"), Ok(4)]));
    assert_eq!(count.load(Ordering::SeqCst), 5);
}

#[test]
fn scheduler_waiting_run_stays_under_aim_plus_limit() {
    let mut s = Scheduler::new(10, 3, 2, true);
    assert_eq!(s.launch(), 3);
    s.complete(false);
    assert_eq!(s.launch(), 1);
    s.complete(true);
    assert_eq!(s.launch(), 1);
    s.complete(true);
    assert!(!s.stops_early());
    assert_eq!(s.launch(), 0);
    assert_eq!(s.running_now(), 2);
    s.complete(true);
    s.complete(true);
    assert_eq!(s.running_now(), 0);
    assert!(!s.failed());
}
