use usbfwd::common::log::{
    cluster, enabled, level, level_for, louder, quieter, set_level, Level, Verbosity,
};

#[test]
fn levels_are_ordered_and_parseable() {
    assert!(Level::Error < Level::Warn);
    assert_eq!(Level::parse("DEBUG"), Some(Level::Debug));
    assert_eq!(Level::parse("warning"), Some(Level::Warn));
    assert_eq!(Level::parse("nonsense"), None);
}

#[test]
fn filtering_follows_the_configured_level() {
    let mut v = Verbosity::default();
    set_level(&mut v, Level::Warn);
    assert!(enabled(&v, Level::Error));
    assert!(enabled(&v, Level::Warn));
    assert!(!enabled(&v, Level::Info));
    set_level(&mut v, Level::Info);
    assert!(enabled(&v, Level::Info));
}

#[test]
fn info_is_logged_unless_told_otherwise() {
    let v = Verbosity::default();
    assert_eq!(level(&v), 2);
    assert!(enabled(&v, Level::Info));
    assert!(!enabled(&v, Level::Debug));
    assert_eq!(Level::parse(" trace\n"), Some(Level::Trace));
    assert_eq!(Level::Trace.tag(), "trace");
}

#[test]
fn verbosity_is_counted_and_bounded() {
    let arg = |s: &str| cluster(&s.chars().collect::<Vec<char>>());
    assert!(arg("-v") && arg("-vvv"));
    assert!(!arg("-") && !arg("-vq") && !arg("vv"));
    assert_eq!(louder(0, 2), 2);
    assert_eq!(louder(i32::MAX, 1), i32::MAX);
    assert_eq!(quieter(1), -1);
    assert_eq!(quieter(i32::MIN), i32::MIN);
    assert_eq!(level_for(-1), Some(Level::Error));
    assert_eq!(level_for(0), None);
    assert_eq!(level_for(1), Some(Level::Debug));
    assert_eq!(level_for(7), Some(Level::Trace));
}
