//! Event loops: events emitted to a loop, treated in order, and collected until
//! the loop finishes.
use vstd::prelude::*;
use crate::promise::Promise;

verus! {

/// What the treatment of an event, or a function that emits events, gives.
pub enum Emit<Ev> {
    /// Generates a new event.
    Event(Ev),
    /// Continues the loop.
    Continue,
    /// Stops the loop.
    Stop,
}

/// How a loop treats each event that it accepts.
pub trait Reaction<Ev>: Send {
    /// The treatment may be applied to `ev`.
    spec fn accepts(&self, ev: Ev) -> bool;

    /// Treating `ev` can give `out`.
    spec fn gives(&self, ev: Ev, out: Emit<Ev>) -> bool;

    /// Treats `ev`.
    fn react(&self, ev: Ev) -> (out: Emit<Ev>)
        requires
            self.accepts(ev),
        ensures
            self.gives(ev, out),
    ;
}

impl<Ev, F: Fn(Ev) -> Emit<Ev> + Send> Reaction<Ev> for F {
    open spec fn accepts(&self, ev: Ev) -> bool {
        call_requires(*self, (ev,))
    }

    open spec fn gives(&self, ev: Ev, out: Emit<Ev>) -> bool {
        call_ensures(*self, (ev,), out)
    }

    fn react(&self, ev: Ev) -> (out: Emit<Ev>) {
        (self)(ev)
    }
}

/// The treatment that passes every event on to the collected events.
pub struct PassOn;

impl<Ev> Reaction<Ev> for PassOn {
    open spec fn accepts(&self, ev: Ev) -> bool {
        true
    }

    open spec fn gives(&self, ev: Ev, out: Emit<Ev>) -> bool {
        out == Emit::Event(ev)
    }

    fn react(&self, ev: Ev) -> (out: Emit<Ev>) {
        Emit::Event(ev)
    }
}

/// The treatment that hands every event to a function and collects nothing.
pub struct Observe<F> {
    f: F,
}

impl<Ev, F: Fn(Ev) + Send> Reaction<Ev> for Observe<F> {
    closed spec fn accepts(&self, ev: Ev) -> bool {
        call_requires(self.f, (ev,))
    }

    closed spec fn gives(&self, ev: Ev, out: Emit<Ev>) -> bool {
        out is Continue && call_ensures(self.f, (ev,), ())
    }

    fn react(&self, ev: Ev) -> (out: Emit<Ev>) {
        (self.f)(ev);
        Emit::Continue
    }
}

/// The state of a loop: whether it was finished, whether it no longer treats
/// events (once finished, or once its treatment said `Stop`), and the events that
/// it collected, in order.
pub struct Collector<Ev> {
    finished: bool,
    stopped: bool,
    events: Vec<Ev>,
}

impl<Ev> Collector<Ev> {
    pub closed spec fn finished(&self) -> bool {
        self.finished
    }

    pub closed spec fn stopped(&self) -> bool {
        self.stopped
    }

    pub closed spec fn events(&self) -> Seq<Ev> {
        self.events@
    }

    /// A finished loop treats no more events.
    pub open spec fn wf(&self) -> bool {
        self.finished() ==> self.stopped()
    }

    /// The loop is running: it takes new events, as it was neither finished nor
    /// stopped by its treatment.
    pub open spec fn admits(&self) -> bool {
        !self.finished() && !self.stopped()
    }

    /// A running loop with nothing collected.
    pub fn new() -> (c: Collector<Ev>)
        ensures
            c.wf(),
            !c.finished(),
            !c.stopped(),
            c.events() == Seq::<Ev>::empty(),
    {
        Collector { finished: false, stopped: false, events: Vec::new() }
    }

    /// The loop is running.
    pub fn is_active(&self) -> (b: bool)
        ensures
            b == self.admits(),
    {
        !self.finished && !self.stopped
    }

    /// Applies what the treatment of an accepted event gave: a new event is
    /// collected, `Continue` changes nothing, `Stop` stops the loop.
    pub fn apply(&mut self, out: Emit<Ev>)
        requires
            old(self).wf(),
            old(self).admits(),
        ensures
            final(self).wf(),
            final(self).finished() == old(self).finished(),
            match out {
                Emit::Event(e) => final(self).events() == old(self).events().push(e) && !final(self).stopped(),
                Emit::Continue => final(self).events() == old(self).events() && !final(self).stopped(),
                Emit::Stop => final(self).events() == old(self).events() && final(self).stopped(),
            },
    {
        match out {
            Emit::Event(e) => self.events.push(e),
            Emit::Continue => {},
            Emit::Stop => self.stopped = true,
        }
    }

    /// Finishes the loop; a loop already finished is left as it is.
    pub fn finish(&mut self)
        requires
            old(self).wf(),
        ensures
            final(self).wf(),
            final(self).finished(),
            final(self).stopped(),
            final(self).events() == old(self).events(),
    {
        if !self.finished {
            self.finished = true;
            self.stopped = true;
        }
    }

    /// The events collected.
    pub fn into_events(self) -> (v: Vec<Ev>)
        ensures
            v@ == self.events(),
    {
        self.events
    }
}

/// An event loop: it takes the events emitted to it while it runs, treats each one
/// in turn, and collects what the treatment gives, until it is finished or its
/// treatment says `Stop`.
#[verifier::reject_recursive_types(Ev)]
pub struct EventLoop<Ev> {
    collector: Collector<Ev>,
    reaction: Box<dyn Reaction<Ev>>,
}

/// `after` is the loop `before` once `ev` was emitted to it, and `accepted` says
/// whether the loop took it: a running loop takes it, treats it, and applies what the
/// treatment gives (a new event is collected, `Continue` changes nothing, `Stop` stops
/// the loop); any other loop is left as it was.
pub open spec fn emitted<Ev>(before: EventLoop<Ev>, after: EventLoop<Ev>, ev: Ev, accepted: bool) -> bool {
    &&& accepted == before.running()
    &&& after.finished() == before.finished()
    &&& forall|e: Ev, out: Emit<Ev>| #[trigger] after.treats(e, out) == before.treats(e, out)
    &&& if before.running() {
        exists|out: Emit<Ev>| #[trigger] before.treats(ev, out) && match out {
            Emit::Event(e) => after.events() == before.events().push(e) && !after.stopped(),
            Emit::Continue => after.events() == before.events() && !after.stopped(),
            Emit::Stop => after.events() == before.events() && after.stopped(),
        }
    } else {
        after.events() == before.events() && after.stopped() == before.stopped()
    }
}

impl<Ev> EventLoop<Ev> {
    #[verifier::type_invariant]
    spec fn inv(&self) -> bool {
        &&& self.collector.wf()
        &&& forall|ev: Ev| #[trigger] self.reaction.accepts(ev)
    }

    /// The loop was finished.
    pub closed spec fn finished(&self) -> bool {
        self.collector.finished()
    }

    /// The loop no longer treats events: it was finished, or its treatment said `Stop`.
    pub closed spec fn stopped(&self) -> bool {
        self.collector.stopped()
    }

    /// The events collected so far, in order.
    pub closed spec fn events(&self) -> Seq<Ev> {
        self.collector.events()
    }

    /// Treating `ev` can give `out`, in this loop.
    pub closed spec fn treats(&self, ev: Ev, out: Emit<Ev>) -> bool {
        self.reaction.gives(ev, out)
    }

    /// The loop is running: it takes new events.
    pub open spec fn running(&self) -> bool {
        !self.finished() && !self.stopped()
    }
}

impl<Ev: Send + 'static> EventLoop<Ev> {
    /// Creates a new event loop that collects all the events into a vector.
    pub fn new() -> (el: EventLoop<Ev>)
        ensures
            el.running(),
            el.events() == Seq::<Ev>::empty(),
            forall|ev: Ev, out: Emit<Ev>| #[trigger] el.treats(ev, out) == (out == Emit::Event(ev)),
    {
        let reaction: Box<dyn Reaction<Ev>> = Box::new(PassOn);
        EventLoop { collector: Collector::new(), reaction }
    }

    /// Creates a new event loop that hands every event it takes to `f`, and collects
    /// none.
    pub fn on<F: Fn(Ev) + Send + 'static>(f: F) -> (el: EventLoop<Ev>)
        requires
            forall|ev: Ev| #[trigger] f.requires((ev,)),
        ensures
            el.running(),
            el.events() == Seq::<Ev>::empty(),
            forall|ev: Ev, out: Emit<Ev>| #[trigger] el.treats(ev, out) == (out is Continue && f.ensures((ev,), ())),
    {
        let reaction: Box<dyn Reaction<Ev>> = Box::new(Observe { f });
        EventLoop { collector: Collector::new(), reaction }
    }

    /// Creates a new event loop that hands every event to `f` and collects what it
    /// gives: a new event is collected, `Continue` collects nothing, `Stop` stops the loop.
    pub fn on_managed<F: Fn(Ev) -> Emit<Ev> + Send + 'static>(f: F) -> (el: EventLoop<Ev>)
        requires
            forall|ev: Ev| #[trigger] f.requires((ev,)),
        ensures
            el.running(),
            el.events() == Seq::<Ev>::empty(),
            forall|ev: Ev, out: Emit<Ev>| #[trigger] el.treats(ev, out) == f.ensures((ev,), out),
    {
        let reaction: Box<dyn Reaction<Ev>> = Box::new(f);
        EventLoop { collector: Collector::new(), reaction }
    }

    /// Triggers an event once. Returns the same event if the event loop is not
    /// running.
    pub fn emit(&mut self, event: Ev) -> (r: Result<(), Ev>)
        ensures
            emitted(*old(self), *final(self), event, r is Ok),
            r matches Err(e) ==> e == event,
    {
        proof {
            use_type_invariant(&*self);
        }
        if self.collector.is_active() {
            let out = self.reaction.react(event);
            let ghost given = out;
            assert(old(self).treats(event, given));
            let mut c = Collector::new();
            std::mem::swap(&mut c, &mut self.collector);
            c.apply(out);
            self.collector = c;
            Ok(())
        } else {
            Err(event)
        }
    }

    /// Handles one output of a function that emits events: emits the event it gives.
    /// Returns whether to go on calling the function: not after `Stop`, nor once the
    /// loop refuses an event.
    pub fn emit_step(&mut self, out: Emit<Ev>) -> (go_on: bool)
        ensures
            match out {
                Emit::Event(e) => emitted(*old(self), *final(self), e, go_on),
                Emit::Continue => go_on && *final(self) == *old(self),
                Emit::Stop => !go_on && *final(self) == *old(self),
            },
    {
        match out {
            Emit::Event(e) => self.emit(e).is_ok(),
            Emit::Continue => true,
            Emit::Stop => false,
        }
    }

    /// Finishes the event loop immediately.
    pub fn finish(self) -> (el: EventLoop<Ev>)
        ensures
            el.finished(),
            el.stopped(),
            el.events() == self.events(),
            forall|ev: Ev, out: Emit<Ev>| #[trigger] el.treats(ev, out) == self.treats(ev, out),
    {
        proof {
            use_type_invariant(&self);
        }
        let mut el = self;
        let mut c = Collector::new();
        std::mem::swap(&mut c, &mut el.collector);
        c.finish();
        el.collector = c;
        el
    }

    /// Returns true if the event loop is running: it was not finished and its
    /// treatment has not said `Stop`.
    pub fn is_active(&self) -> (b: bool)
        ensures
            b == self.running(),
    {
        proof {
            use_type_invariant(self);
        }
        self.collector.is_active()
    }

    /// The promise of the events collected, in order. The loop ends here: no more
    /// events reach it.
    pub fn to_promise(self) -> (p: Promise<Vec<Ev>, ()>)
        ensures
            p.value() matches Ok(v) && v@ == self.events(),
    {
        let el = self.finish();
        let EventLoop { collector, reaction } = el;
        Promise::settled(Ok(collector.into_events()))
    }
}

} // verus!
