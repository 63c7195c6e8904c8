//! Levels of log messages and what is printed at which level.
use vstd::prelude::*;
use vstd::string::StringSliceAdditionalSpecFns;

verus! {

/// The level of a log message, the most severe first.
#[derive(Copy, Clone, Debug, PartialEq, Eq, Structural)]
pub enum Level {
    /// An error.
    Error,
    /// A warning.
    Warn,
    /// Information.
    Info,
    /// Detail for finding faults.
    Debug,
    /// Fine detail.
    Trace,
}

/// The most verbose level that is printed.
#[derive(Copy, Clone, Debug, PartialEq, Eq, Structural)]
pub enum LevelFilter {
    /// Nothing is printed.
    Off,
    /// Errors only.
    Error,
    /// Warnings and what is more severe.
    Warn,
    /// Information and what is more severe.
    Info,
    /// Detail for finding faults and what is more severe.
    Debug,
    /// Everything.
    Trace,
}

/// The logger: the most verbose level that it prints.
pub struct Logger {
    /// The most verbose level that is printed.
    pub max_level: LevelFilter,
}

/// The rank of a level: 1 for errors up to 5 for fine detail.
pub open spec fn level_rank(level: Level) -> int {
    match level {
        Level::Error => 1,
        Level::Warn => 2,
        Level::Info => 3,
        Level::Debug => 4,
        Level::Trace => 5,
    }
}

/// The rank of a filter: 0 for nothing up to 5 for everything.
pub open spec fn filter_rank(filter: LevelFilter) -> int {
    match filter {
        LevelFilter::Off => 0,
        LevelFilter::Error => 1,
        LevelFilter::Warn => 2,
        LevelFilter::Info => 3,
        LevelFilter::Debug => 4,
        LevelFilter::Trace => 5,
    }
}

/// The filter that the name `name` selects: `error`, `warn`, `info`,
/// `debug` or `trace`, in small or in capital letters throughout; any
/// other name, and no name, selects information.
pub open spec fn filter_of_name(name: Option<Seq<u8>>) -> LevelFilter {
    match name {
        Some(n) => if n == seq![0x65u8, 0x72, 0x72, 0x6f, 0x72] || n == seq![
            0x45u8,
            0x52,
            0x52,
            0x4f,
            0x52,
        ] {
            LevelFilter::Error
        } else if n == seq![0x77u8, 0x61, 0x72, 0x6e] || n == seq![0x57u8, 0x41, 0x52, 0x4e] {
            LevelFilter::Warn
        } else if n == seq![0x64u8, 0x65, 0x62, 0x75, 0x67] || n == seq![
            0x44u8,
            0x45,
            0x42,
            0x55,
            0x47,
        ] {
            LevelFilter::Debug
        } else if n == seq![0x74u8, 0x72, 0x61, 0x63, 0x65] || n == seq![
            0x54u8,
            0x52,
            0x41,
            0x43,
            0x45,
        ] {
            LevelFilter::Trace
        } else {
            LevelFilter::Info
        },
        None => LevelFilter::Info,
    }
}

/// Whether the bytes of `a` are those of `b`.
pub fn bytes_eq(a: &[u8], b: &[u8]) -> (r: bool)
    ensures
        r == (a@ == b@),
{
    if a.len() != b.len() {
        return false;
    }
    let mut i: usize = 0;
    while i < a.len()
        invariant
            i <= a@.len(),
            a@.len() == b@.len(),
            forall|j: int| 0 <= j < i ==> a@[j] == b@[j],
        decreases a@.len() - i,
    {
        if a[i] != b[i] {
            return false;
        }
        i += 1;
    }
    assert(a@ =~= b@);
    true
}

/// Sets the most verbose level that `logger` prints.
pub fn set_max_level(logger: &mut Logger, level: LevelFilter)
    ensures
        final(logger).max_level == level,
{
    logger.max_level = level;
}

/// The most verbose level that `logger` prints.
pub fn max_level(logger: &Logger) -> (r: LevelFilter)
    ensures
        r == logger.max_level,
{
    logger.max_level
}

/// Sets the level of `logger` from the name `name`, the value of the
/// variable `LOG`.
pub fn init(logger: &mut Logger, name: Option<&str>)
    ensures
        final(logger).max_level == filter_of_name(
            match name {
                Some(n) => Some(n.spec_bytes()),
                None => None,
            },
        ),
{
    let level = match name {
        Some(n) => {
            let b = n.as_bytes();
            let error_small: [u8; 5] = [0x65, 0x72, 0x72, 0x6f, 0x72];
            let error_caps: [u8; 5] = [0x45, 0x52, 0x52, 0x4f, 0x52];
            let warn_small: [u8; 4] = [0x77, 0x61, 0x72, 0x6e];
            let warn_caps: [u8; 4] = [0x57, 0x41, 0x52, 0x4e];
            let debug_small: [u8; 5] = [0x64, 0x65, 0x62, 0x75, 0x67];
            let debug_caps: [u8; 5] = [0x44, 0x45, 0x42, 0x55, 0x47];
            let trace_small: [u8; 5] = [0x74, 0x72, 0x61, 0x63, 0x65];
            let trace_caps: [u8; 5] = [0x54, 0x52, 0x41, 0x43, 0x45];
            proof {
                assert(error_small@ =~= seq![0x65u8, 0x72, 0x72, 0x6f, 0x72]);
                assert(error_caps@ =~= seq![0x45u8, 0x52, 0x52, 0x4f, 0x52]);
                assert(warn_small@ =~= seq![0x77u8, 0x61, 0x72, 0x6e]);
                assert(warn_caps@ =~= seq![0x57u8, 0x41, 0x52, 0x4e]);
                assert(debug_small@ =~= seq![0x64u8, 0x65, 0x62, 0x75, 0x67]);
                assert(debug_caps@ =~= seq![0x44u8, 0x45, 0x42, 0x55, 0x47]);
                assert(trace_small@ =~= seq![0x74u8, 0x72, 0x61, 0x63, 0x65]);
                assert(trace_caps@ =~= seq![0x54u8, 0x52, 0x41, 0x43, 0x45]);
            }
            if bytes_eq(b, error_small.as_slice()) || bytes_eq(b, error_caps.as_slice()) {
                LevelFilter::Error
            } else if bytes_eq(b, warn_small.as_slice()) || bytes_eq(b, warn_caps.as_slice()) {
                LevelFilter::Warn
            } else if bytes_eq(b, debug_small.as_slice()) || bytes_eq(b, debug_caps.as_slice()) {
                LevelFilter::Debug
            } else if bytes_eq(b, trace_small.as_slice()) || bytes_eq(b, trace_caps.as_slice()) {
                LevelFilter::Trace
            } else {
                LevelFilter::Info
            }
        },
        None => LevelFilter::Info,
    };
    set_max_level(logger, level);
}

/// The colour in which messages of the level are printed, as the code of
/// a terminal: red for errors, bright yellow for warnings, blue for
/// information, green for detail and grey for fine detail.
pub fn level_to_color_code(level: Level) -> (r: u8)
    ensures
        r == match level {
            Level::Error => 31u8,
            Level::Warn => 93u8,
            Level::Info => 34u8,
            Level::Debug => 32u8,
            Level::Trace => 90u8,
        },
{
    match level {
        Level::Error => 31,
        Level::Warn => 93,
        Level::Info => 34,
        Level::Debug => 32,
        Level::Trace => 90,
    }
}

/// Whether `logger` prints messages of the level `lvl`: those that are
/// no more verbose than its level.
pub fn enabled(logger: &Logger, lvl: Level) -> (r: bool)
    ensures
        r == (level_rank(lvl) <= filter_rank(logger.max_level)),
{
    let l: u8 = match lvl {
        Level::Error => 1,
        Level::Warn => 2,
        Level::Info => 3,
        Level::Debug => 4,
        Level::Trace => 5,
    };
    let m: u8 = match logger.max_level {
        LevelFilter::Off => 0,
        LevelFilter::Error => 1,
        LevelFilter::Warn => 2,
        LevelFilter::Info => 3,
        LevelFilter::Debug => 4,
        LevelFilter::Trace => 5,
    };
    l <= m
}

} // verus!
