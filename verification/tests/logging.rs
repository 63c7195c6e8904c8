use sv39_kernel::logging::{
    bytes_eq, enabled, init, level_to_color_code, max_level, set_max_level, Level, LevelFilter,
    Logger,
};

#[test]
fn level_names() {
    let mut logger = Logger { max_level: LevelFilter::Off };
    init(&mut logger, Some("error"));
    assert_eq!(max_level(&logger), LevelFilter::Error);
    init(&mut logger, Some("WARN"));
    assert_eq!(max_level(&logger), LevelFilter::Warn);
    init(&mut logger, Some("info"));
    assert_eq!(max_level(&logger), LevelFilter::Info);
    init(&mut logger, Some("DEBUG"));
    assert_eq!(max_level(&logger), LevelFilter::Debug);
    init(&mut logger, Some("trace"));
    assert_eq!(max_level(&logger), LevelFilter::Trace);
    init(&mut logger, Some("Trace"));
    assert_eq!(max_level(&logger), LevelFilter::Info);
    init(&mut logger, None);
    assert_eq!(max_level(&logger), LevelFilter::Info);
}

#[test]
fn colours() {
    assert_eq!(level_to_color_code(Level::Error), 31);
    assert_eq!(level_to_color_code(Level::Warn), 93);
    assert_eq!(level_to_color_code(Level::Info), 34);
    assert_eq!(level_to_color_code(Level::Debug), 32);
    assert_eq!(level_to_color_code(Level::Trace), 90);
}

#[test]
fn what_is_printed() {
    let mut logger = Logger { max_level: LevelFilter::Info };
    assert!(enabled(&logger, Level::Error));
    assert!(enabled(&logger, Level::Info));
    assert!(!enabled(&logger, Level::Debug));
    set_max_level(&mut logger, LevelFilter::Off);
    assert!(!enabled(&logger, Level::Error));
    set_max_level(&mut logger, LevelFilter::Trace);
    assert!(enabled(&logger, Level::Trace));
    assert!(bytes_eq(b"abc", b"abc"));
    assert!(!bytes_eq(b"abc", b"abd"));
    assert!(!bytes_eq(b"abc", b"ab"));
}
