use vstd::prelude::*;

verus! {

/// Severity of a log event, from most severe (`Error`) to most verbose
/// (`Trace`).
#[derive(Clone, Copy, PartialEq, Eq, Structural, Debug)]
pub enum Level {
    Error,
    Warn,
    Info,
    Debug,
    Trace,
}

impl Level {
    /// Verbosity rank: `Error` is 0, `Trace` is 4. A smaller rank means a
    /// more severe, less frequent event.
    pub open spec fn verbosity(self) -> int {
        match self {
            Level::Error => 0,
            Level::Warn => 1,
            Level::Info => 2,
            Level::Debug => 3,
            Level::Trace => 4,
        }
    }

    /// Executable counterpart of `verbosity`.
    pub fn rank(&self) -> (n: u8)
        ensures
            n == self.verbosity(),
    {
        match self {
            Level::Error => 0,
            Level::Warn => 1,
            Level::Info => 2,
            Level::Debug => 3,
            Level::Trace => 4,
        }
    }
}

/// A budget's filter predicate over event metadata: admits every event at
/// most as verbose as `max`. `LevelFilter { max: Level::Error }` admits only
/// errors; `max: Level::Trace` admits everything.
#[derive(Clone, Copy, PartialEq, Eq, Structural, Debug)]
pub struct LevelFilter {
    pub max: Level,
}

impl LevelFilter {
    pub open spec fn admits(self, l: Level) -> bool {
        l.verbosity() <= self.max.verbosity()
    }

    pub fn new(max: Level) -> (r: LevelFilter)
        ensures
            r.max == max,
    {
        LevelFilter { max }
    }

    /// Whether an event of severity `l` matches this filter.
    pub fn enabled(&self, l: Level) -> (r: bool)
        ensures
            r == self.admits(l),
    {
        l.rank() <= self.max.rank()
    }
}

} // verus!
