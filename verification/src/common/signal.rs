//! What signals ask of the process: to shut down, or to put every withheld device back
//! on offer.
//!
//! A handler may do no more than note that its signal came; what that means is decided
//! here, once somebody asks.
use vstd::prelude::*;

verus! {

/// The signals that are listened to.
#[derive(Debug, Clone, Copy, PartialEq, Eq, Structural)]
pub enum Signal {
    /// SIGINT.
    Interrupt,
    /// SIGTERM.
    Terminate,
    /// SIGHUP.
    Hangup,
}

/// What the process has been asked for.
#[derive(Debug, Clone, Copy, PartialEq, Eq, Structural)]
pub struct Signals {
    shutdown: bool,
    hangup: bool,
}

/// The same, as contracts speak of it.
pub struct Wishes {
    pub shutdown: bool,
    pub hangup: bool,
}

impl View for Signals {
    type V = Wishes;

    closed spec fn view(&self) -> Wishes {
        Wishes { shutdown: self.shutdown, hangup: self.hangup }
    }
}

impl Wishes {
    /// After a signal came.
    pub open spec fn after(self, signal: Signal) -> Wishes {
        match signal {
            Signal::Interrupt => Wishes { shutdown: true, ..self },
            Signal::Terminate => Wishes { shutdown: true, ..self },
            Signal::Hangup => Wishes { hangup: true, ..self },
        }
    }

    /// After these signals came in turn.
    pub open spec fn after_all(self, signals: Seq<Signal>) -> Wishes
        decreases signals.len(),
    {
        if signals.len() == 0 {
            self
        } else {
            self.after_all(signals.drop_last()).after(signals.last())
        }
    }

    /// After the hangup has been taken.
    pub open spec fn taken(self) -> Wishes {
        Wishes { hangup: false, ..self }
    }
}

impl Signals {
    /// Nothing has been asked for yet.
    pub fn new() -> (s: Signals)
        ensures
            s@ == (Wishes { shutdown: false, hangup: false }),
    {
        Signals { shutdown: false, hangup: false }
    }

    pub fn received(&mut self, signal: Signal)
        ensures
            final(self)@ == old(self)@.after(signal),
    {
        match signal {
            Signal::Interrupt => self.request_shutdown(),
            Signal::Terminate => self.request_shutdown(),
            Signal::Hangup => {
                self.hangup = true;
            },
        }
    }

    /// Asks for what a SIGTERM would ask for.
    pub fn request_shutdown(&mut self)
        ensures
            final(self)@ == old(self)@.after(Signal::Terminate),
    {
        self.shutdown = true;
    }

    pub fn shutting_down(&self) -> (r: bool)
        ensures
            r == self@.shutdown,
    {
        self.shutdown
    }

    /// Take the pending `SIGHUP`, clearing it.
    ///
    /// The exporter uses it as the way out of a toggle it cannot undo on its own:
    /// whatever the chord watcher is doing, a `SIGHUP` puts every withheld device
    /// back on offer. That matters because the toggle deliberately takes the
    /// controls away from the machine running this process, so there has to be a
    /// lever that does not need those controls to reach.
    pub fn take_hangup(&mut self) -> (r: bool)
        ensures
            r == old(self)@.hangup,
            final(self)@ == old(self)@.taken(),
    {
        let was = self.hangup;
        self.hangup = false;
        was
    }
}

/// A flag that follows the process-wide shutdown state, for threads that also have
/// their own reasons to stop.
#[derive(Debug, Clone, Copy, PartialEq, Eq, Structural)]
pub struct Flag {
    pub own: bool,
}

/// A flag that is not set for a reason of its own.
pub fn flag() -> (f: Flag)
    ensures
        f == (Flag { own: false }),
{
    Flag { own: false }
}

impl Flag {
    /// Sets the flag for a reason of its own.
    pub fn set(&mut self)
        ensures
            *final(self) == (Flag { own: true }),
    {
        self.own = true;
    }

    pub fn is_set(&self, signals: &Signals) -> (r: bool)
        ensures
            r == (self.own || signals@.shutdown),
    {
        self.own || signals.shutting_down()
    }
}

/// The process shuts down once it has been asked to, and for good: no signal and no
/// taking of a hangup undoes it, and nothing else brings it about. A hangup is taken
/// once, however many came, and taking it leaves none until the next comes.
pub proof fn lemma_signals_are_not_lost(w: Wishes, signals: Seq<Signal>)
    ensures
        w.after_all(signals).shutdown == (w.shutdown || signals.contains(Signal::Interrupt)
            || signals.contains(Signal::Terminate)),
        w.after_all(signals).hangup == (w.hangup || signals.contains(Signal::Hangup)),
        w.taken().shutdown == w.shutdown,
        w.taken().after_all(signals).hangup == signals.contains(Signal::Hangup),
    decreases signals.len(),
{
    if signals.len() > 0 {
        let init = signals.drop_last();
        let last = signals.last();
        lemma_signals_are_not_lost(w, init);
        assert(signals[signals.len() - 1] == last);
        assert forall|s: Signal| #[trigger] signals.contains(s) == (init.contains(s) || s
            == last) by {
            if signals.contains(s) && s != last {
                let k = choose|k: int| 0 <= k < signals.len() && signals[k] == s;
                assert(init[k] == s);
            }
            if init.contains(s) {
                let k = choose|k: int| 0 <= k < init.len() && init[k] == s;
                assert(signals[k] == s);
            }
        }
    }
}

} // verus!
