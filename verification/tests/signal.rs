use usbfwd::common::signal::{flag, Signal, Signals};

#[test]
fn a_shutdown_is_asked_for_once_and_for_good() {
    let mut s = Signals::new();
    assert!(!s.shutting_down());
    s.received(Signal::Hangup);
    assert!(!s.shutting_down());
    for sig in [Signal::Interrupt, Signal::Terminate] {
        let mut t = s;
        t.received(sig);
        assert!(t.shutting_down());
        assert!(t.take_hangup());
        assert!(t.shutting_down());
    }
    s.request_shutdown();
    assert!(s.shutting_down());
}

#[test]
fn a_hangup_is_taken_once() {
    let mut s = Signals::new();
    assert!(!s.take_hangup());
    s.received(Signal::Hangup);
    s.received(Signal::Hangup);
    assert!(s.take_hangup());
    assert!(!s.take_hangup());
    s.received(Signal::Hangup);
    assert!(s.take_hangup());
}

#[test]
fn a_flag_follows_the_shutdown_state_and_its_own_reasons() {
    let mut s = Signals::new();
    let mut f = flag();
    assert!(!f.is_set(&s));
    s.request_shutdown();
    assert!(f.is_set(&s), "it follows the process");
    f.set();
    assert!(f.is_set(&Signals::new()), "or has its own reason");
}
