use vstd::prelude::*;

verus! {

/// How severe a log message is.
#[derive(Debug, Clone, Copy, PartialEq, Eq, Structural)]
pub enum LogLevel {
    Info,
    Warn,
    Error,
}

impl LogLevel {
    pub open spec fn spec_color(self) -> Seq<char> {
        match self {
            LogLevel::Info => "\x1b[0;32m"@,
            LogLevel::Warn => "\x1b[0;33m"@,
            LogLevel::Error => "\x1b[0;31m"@,
        }
    }

    /// The terminal colour of the level's tag: green, yellow or red.
    pub fn color(&self) -> (s: &'static str)
        ensures
            s@ == self.spec_color(),
    {
        match self {
            LogLevel::Info => "\x1b[0;32m",
            LogLevel::Warn => "\x1b[0;33m",
            LogLevel::Error => "\x1b[0;31m",
        }
    }
}

} // verus!
