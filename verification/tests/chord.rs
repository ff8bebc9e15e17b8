use usbfwd::server::chord::{buttons, describe, Chord, Detector, Verdict, DECK_STATE};

/// Milliseconds in nanoseconds.
fn millis(n: u64) -> u64 {
    n * 1_000_000
}

/// A 64-byte Deck state report with these buttons down.
fn report(buttons: u64) -> Vec<u8> {
    let mut r = vec![0u8; 64];
    r[0] = 0x01;
    r[1] = 0x00;
    r[2] = DECK_STATE;
    r[3] = 60;
    r[4..8].copy_from_slice(&7u32.to_le_bytes());
    r[8..16].copy_from_slice(&buttons.to_le_bytes());
    r
}

#[test]
fn button_names_bit_numbers_and_raw_masks_agree() {
    let by_name: Chord = "L4+R4".parse().unwrap();
    let by_bit: Chord = "b41,b42".parse().unwrap();
    let raw: Chord = "0x60000000000".parse().unwrap();
    assert_eq!(by_name, by_bit);
    assert_eq!(by_name, raw);
    assert_eq!(by_name.to_string(), "l4+r4");
}

#[test]
fn a_misspelt_button_says_what_is_known() {
    let e = "l4+nonsense".parse::<Chord>().unwrap_err();
    assert!(e.contains("steam"), "unhelpful: {e}");
    assert!(e.contains("--chord-probe"), "unhelpful: {e}");
    assert!("".parse::<Chord>().is_err());
    assert!("b64".parse::<Chord>().is_err(), "past the end of the field");
    assert!("0xzz".parse::<Chord>().is_err());
}

#[test]
fn only_deck_state_reports_decode() {
    assert_eq!(buttons(&report(0x1234)), Some(0x1234));
    // Right shape, wrong report type: a keyboard report in lizard mode.
    let mut kbd = report(0xffff);
    kbd[2] = 0x01;
    assert_eq!(buttons(&kbd), None);
    // Truncated, and a header that is not Valve's at all.
    assert_eq!(buttons(&report(0)[..12]), None);
    assert_eq!(buttons(&[0u8; 64]), None);
    // A state report whose length field cannot cover the button word.
    let mut short = report(0xff);
    short[3] = 8;
    assert_eq!(buttons(&short), None);
}

#[test]
fn a_chord_fires_once_after_the_hold_and_not_before() {
    let chord: Chord = "l4+r4".parse().unwrap();
    let mut d = Detector::new(chord, millis(500));
    let t0 = millis(7);

    // Other buttons alone do nothing.
    assert_eq!(d.feed(&report(0xff), t0), Verdict::default());

    // The chord goes down: swallowed immediately, but not yet fired.
    let held = chord.mask() | 0x80;
    let v = d.feed(&report(held), t0);
    assert!(v.swallow && !v.fired);
    let v = d.feed(&report(held), t0 + millis(499));
    assert!(v.swallow && !v.fired);

    // Long enough.
    let v = d.feed(&report(held), t0 + millis(500));
    assert!(v.swallow && v.fired);

    // Still held: swallowed, but it must not fire again.
    let v = d.feed(&report(held), t0 + millis(5000));
    assert!(v.swallow && !v.fired, "one press, one toggle");
}

#[test]
fn releasing_the_chord_restarts_the_hold() {
    let chord: Chord = "steam+l5".parse().unwrap();
    let mut d = Detector::new(chord, millis(500));
    let t0 = millis(7);
    d.feed(&report(0), t0); // arm it
    assert!(d.feed(&report(chord.mask()), t0).swallow);
    // Let go before the hold elapses.
    assert_eq!(
        d.feed(&report(0), t0 + millis(300)),
        Verdict::default()
    );
    // Press again: the clock starts over, so the earlier 300 ms is gone.
    let t1 = t0 + millis(400);
    let v = d.feed(&report(chord.mask()), t1 + millis(499));
    assert!(!v.fired, "a released chord must not carry credit forward");
    assert!(
        d.feed(&report(chord.mask()), t1 + millis(1000))
            .fired
    );
}

#[test]
fn foreign_reports_neither_fire_nor_break_a_hold() {
    let chord: Chord = "l4+r4".parse().unwrap();
    let mut d = Detector::new(chord, millis(500));
    let t0 = millis(7);
    d.feed(&report(0), t0); // arm it
    assert!(d.feed(&report(chord.mask()), t0).swallow);
    // A feature-report reply arriving mid-hold is not evidence of release.
    let v = d.feed(&[0x00, 0x01, 0x02], t0 + millis(100));
    assert_eq!(v, Verdict::default());
    assert!(
        d.feed(&report(chord.mask()), t0 + millis(1000))
            .fired
    );
}

/// The oscillation guard: whichever side of the toggle a detector is
/// created on, the chord that caused the handover is still down.
#[test]
fn a_chord_already_held_when_watching_starts_must_be_released_first() {
    let chord: Chord = "l4+r4".parse().unwrap();
    let mut d = Detector::new(chord, millis(500));
    let t0 = millis(7);

    // Held from the first report and never let go: swallowed, never fired,
    // however long it is kept down.
    for ms in [0, 500, 5_000, 60_000] {
        let v = d.feed(&report(chord.mask()), t0 + millis(ms));
        assert!(v.swallow && !v.fired, "must not fire at {ms} ms");
    }

    // Released, then pressed again: an ordinary press, which does fire.
    d.feed(&report(0), t0 + millis(60_001));
    let t1 = t0 + millis(60_002);
    assert!(!d.feed(&report(chord.mask()), t1).fired);
    assert!(
        d.feed(&report(chord.mask()), t1 + millis(1000))
            .fired
    );
}

#[test]
fn unknown_bits_describe_themselves_by_number() {
    assert_eq!(describe(0), "none");
    assert_eq!(describe(1 << 60), "b60");
    assert_eq!(describe((1 << 13) | (1 << 60)), "steam+b60");
}

#[test]
fn written_chords_read_back() {
    for s in ["steam", "l4+r4", "a+b60", "b63"] {
        let c: Chord = s.parse().unwrap();
        assert_eq!(c.to_string(), s);
        assert_eq!(Chord::from_str(&c.to_string()), Ok(c));
    }
    let c: Chord = "l4+r4".parse().unwrap();
    assert_eq!(c.mask(), 0x600_0000_0000);
    assert!(c.held_in(c.mask() | 1));
    assert!(!c.held_in(1 << 41));
}
