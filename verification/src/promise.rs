//! Settled results of work, and what follows from them.
use vstd::prelude::*;

verus! {

/// The result of a task (`Ok` value or `Err` error) once the task has run.
/// T : Type of value returned
/// E : Type of error returned
pub struct Promise<T, E> {
    result: Result<T, E>,
}

/// What `Promise::all` settles to: the values when every result is `Ok`,
/// else every result as it came.
pub open spec fn all_settled<T, E>(results: Seq<Result<T, E>>) -> Result<Seq<T>, Seq<Result<T, E>>> {
    if forall|i: int| 0 <= i < results.len() ==> (#[trigger] results[i]) is Ok {
        Ok(ok_values(results))
    } else {
        Err(results)
    }
}

/// A result made of vectors, seen as sequences.
pub open spec fn verdict_view<T, E>(r: Result<Vec<T>, Vec<Result<T, E>>>) -> Result<Seq<T>, Seq<Result<T, E>>> {
    match r {
        Ok(v) => Ok(v@),
        Err(v) => Err(v@),
    }
}

/// The values of the `Ok` results, in order.
pub open spec fn ok_values<T, E>(results: Seq<Result<T, E>>) -> Seq<T>
    decreases results.len(),
{
    if results.len() == 0 {
        Seq::empty()
    } else {
        let rest = ok_values(results.drop_last());
        match results.last() {
            Ok(t) => rest.push(t),
            Err(_) => rest,
        }
    }
}

impl<T, E> Promise<T, E> {
    /// The result that the promise holds.
    pub closed spec fn value(&self) -> Result<T, E> {
        self.result
    }

    /// A promise that already holds `result`.
    pub fn settled(result: Result<T, E>) -> (p: Promise<T, E>)
        ensures
            p.value() == result,
    {
        Promise { result }
    }

    /// Executes a task immediately and returns its promise.
    pub fn new<F: FnOnce() -> Result<T, E>>(f: F) -> (p: Promise<T, E>)
        requires
            f.requires(()),
        ensures
            f.ensures((), p.value()),
    {
        Promise { result: f() }
    }

    /// Synchronizes with the task and returns its result.
    pub fn sync(self) -> (r: Result<T, E>)
        ensures
            r == self.value(),
    {
        self.result
    }

    /// Runs `ft` on the value or `fe` on the error, whichever the promise holds,
    /// and returns the promise of what it returns.
    pub fn then_either<TT, EE, FT: FnOnce(T) -> Result<TT, EE>, FE: FnOnce(E) -> Result<TT, EE>>(
        self,
        ft: FT,
        fe: FE,
    ) -> (p: Promise<TT, EE>)
        requires
            self.value() matches Ok(t) ==> ft.requires((t,)),
            self.value() matches Err(e) ==> fe.requires((e,)),
        ensures
            match self.value() {
                Ok(t) => ft.ensures((t,), p.value()),
                Err(e) => fe.ensures((e,), p.value()),
            },
    {
        match self.result {
            Ok(t) => Promise { result: ft(t) },
            Err(e) => Promise { result: fe(e) },
        }
    }

    /// Runs `f` on the whole result, `Ok` or `Err`.
    pub fn chain<TT, EE, F: FnOnce(Result<T, E>) -> Result<TT, EE>>(self, f: F) -> (p: Promise<TT, EE>)
        requires
            f.requires((self.value(),)),
        ensures
            f.ensures((self.value(),), p.value()),
    {
        Promise { result: f(self.result) }
    }

    /// Runs `f` on the value if the promise holds one; an error is passed on unchanged.
    pub fn success<TT, F: FnOnce(T) -> Result<TT, E>>(self, f: F) -> (p: Promise<TT, E>)
        requires
            self.value() matches Ok(t) ==> f.requires((t,)),
        ensures
            match self.value() {
                Ok(t) => f.ensures((t,), p.value()),
                Err(e) => p.value() == Err::<TT, E>(e),
            },
    {
        match self.result {
            Ok(t) => Promise { result: f(t) },
            Err(e) => Promise { result: Err(e) },
        }
    }

    /// Runs `f` on the error if the promise holds one; a value is passed on unchanged.
    pub fn fail<F: FnOnce(E) -> Result<T, E>>(self, f: F) -> (p: Promise<T, E>)
        requires
            self.value() matches Err(e) ==> f.requires((e,)),
        ensures
            match self.value() {
                Ok(t) => p.value() == Ok::<T, E>(t),
                Err(e) => f.ensures((e,), p.value()),
            },
    {
        match self.result {
            Ok(t) => Promise { result: Ok(t) },
            Err(e) => Promise { result: f(e) },
        }
    }

    /// Hands the result to `f`, which returns nothing.
    pub fn finally<F: FnOnce(Result<T, E>)>(self, f: F)
        requires
            f.requires((self.value(),)),
        ensures
            f.ensures((self.value(),), ()),
    {
        f(self.result)
    }

    /// Hands the result to `f`, which returns nothing, once the task is done.
    pub fn finally_sync<F: FnOnce(Result<T, E>)>(self, f: F)
        requires
            f.requires((self.value(),)),
        ensures
            f.ensures((self.value(),), ()),
    {
        f(self.sync())
    }

    /// The promise of all the promises' results: the values, in order, when all are `Ok`;
    /// else every result, in order.
    pub fn all(vector: Vec<Promise<T, E>>) -> (p: Promise<Vec<T>, Vec<Result<T, E>>>)
        ensures
            verdict_view(p.value()) == all_settled(vector@.map_values(|q: Promise<T, E>| q.value())),
            p.value() is Err <==> exists|i: int| 0 <= i < vector@.len() && (#[trigger] vector@[i]).value() is Err,
            p.value() matches Err(v) ==> v@.len() == vector@.len()
                && forall|i: int| 0 <= i < vector@.len() ==> #[trigger] v@[i] == vector@[i].value(),
            p.value() matches Ok(v) ==> v@.len() == vector@.len()
                && forall|i: int| 0 <= i < vector@.len() ==> vector@[i].value() == Ok::<T, E>(#[trigger] v@[i]),
    {
        let ghost given = vector@.map_values(|q: Promise<T, E>| q.value());
        let mut results: Vec<Result<T, E>> = Vec::new();
        let mut rest = vector;
        let mut all_ok = true;
        while rest.len() > 0
            invariant
                results@ + rest@.map_values(|q: Promise<T, E>| q.value()) == given,
                all_ok <==> forall|i: int| 0 <= i < results@.len() ==> (#[trigger] results@[i]) is Ok,
            decreases rest.len(),
        {
            let q = rest.remove(0);
            let r = q.sync();
            let ghost was_ok = all_ok;
            if r.is_err() {
                all_ok = false;
            }
            proof {
                let old_rest = rest@.insert(0, q);
                assert(old_rest.map_values(|q: Promise<T, E>| q.value())
                    == seq![r] + rest@.map_values(|q: Promise<T, E>| q.value()));
            }
            let ghost before = results@;
            results.push(r);
            assert(results@ == before.push(r));
            assert(all_ok <==> forall|i: int| 0 <= i < results@.len() ==> (#[trigger] results@[i]) is Ok) by {
                if all_ok {
                    assert forall|i: int| 0 <= i < results@.len() implies (#[trigger] results@[i]) is Ok by {
                        if i < before.len() {
                            assert(before[i] is Ok);
                        }
                    }
                } else if r is Ok {
                    assert(!was_ok);
                    let j = choose|j: int| 0 <= j < before.len() && !(#[trigger] before[j] is Ok);
                    assert(results@[j] == before[j]);
                } else {
                    assert(!(results@[before.len() as int] is Ok));
                }
            }
            assert(results@ + rest@.map_values(|q: Promise<T, E>| q.value()) == given);
        }
        assert(results@ == given);
        assert forall|i: int| 0 <= i < vector@.len() implies #[trigger] given[i] == vector@[i].value() by {}
        if all_ok {
            proof {
                crate::deferred::lemma_all_ok(given);
                assert forall|i: int| 0 <= i < vector@.len() implies vector@[i].value() == Ok::<T, E>(#[trigger] ok_values(given)[i]) by {
                    assert(ok_values(given).map_values(|t: T| Ok::<T, E>(t))[i] == given[i]);
                }
                if exists|i: int| 0 <= i < vector@.len() && (#[trigger] vector@[i]).value() is Err {
                    let i = choose|i: int| 0 <= i < vector@.len() && (#[trigger] vector@[i]).value() is Err;
                    assert(given[i] is Ok);
                }
            }
            let values = values_of(results);
            Promise { result: Ok(values) }
        } else {
            proof {
                let j = choose|j: int| 0 <= j < given.len() && !(#[trigger] given[j] is Ok);
                assert(vector@[j].value() is Err);
            }
            Promise { result: Err(results) }
        }
    }
}

/// The values of `results`, all of which are `Ok`.
fn values_of<T, E>(results: Vec<Result<T, E>>) -> (v: Vec<T>)
    requires
        forall|i: int| 0 <= i < results@.len() ==> (#[trigger] results@[i]) is Ok,
    ensures
        v@ == ok_values(results@),
{
    let ghost all = results@;
    let mut values: Vec<T> = Vec::new();
    let mut rest = results;
    while rest.len() > 0
        invariant
            forall|i: int| 0 <= i < rest@.len() ==> (#[trigger] rest@[i]) is Ok,
            all == all.take(all.len() - rest@.len()) + rest@,
            rest@.len() <= all.len(),
            values@ == ok_values(all.take(all.len() - rest@.len())),
        decreases rest.len(),
    {
        let ghost done = all.take(all.len() - rest@.len());
        let r = rest.remove(0);
        assert(r == all[done.len() as int]);
        assert(all.take(all.len() - rest@.len()) == done.push(r));
        assert(all.take(all.len() - rest@.len()).drop_last() == done);
        match r {
            Ok(t) => values.push(t),
            Err(_) => {},
        }
    }
    assert(all.take(all.len() as int) == all);
    values
}

} // verus!
