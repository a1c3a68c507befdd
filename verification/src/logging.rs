use vstd::prelude::*;

verus! {

/// How severe a log message is.
#[derive(Debug, Clone, Copy, PartialEq, Eq, Structural)]
pub enum LogLevel {
    Trace,
    Info,
    Warn,
    Error,
}

impl LogLevel {
    pub open spec fn spec_label(self) -> Seq<char> {
        match self {
            LogLevel::Trace => "\x1b[38;2;128;128;128mTRACE\x1b[0m"@,
            LogLevel::Info => "\x1b[0;32mINFO\x1b[0m"@,
            LogLevel::Warn => "\x1b[0;33mWARN\x1b[0m"@,
            LogLevel::Error => "\x1b[0;31mERROR\x1b[0m"@,
        }
    }

    pub open spec fn spec_tint(self) -> Seq<char> {
        match self {
            LogLevel::Trace => "\x1b[38;2;128;128;128m"@,
            _ => ""@,
        }
    }

    /// The coloured name of the level printed in each log line.
    pub fn label(&self) -> (s: &'static str)
        ensures
            s@ == self.spec_label(),
    {
        match self {
            LogLevel::Trace => "\x1b[38;2;128;128;128mTRACE\x1b[0m",
            LogLevel::Info => "\x1b[0;32mINFO\x1b[0m",
            LogLevel::Warn => "\x1b[0;33mWARN\x1b[0m",
            LogLevel::Error => "\x1b[0;31mERROR\x1b[0m",
        }
    }

    /// The colour the message text is printed in: grey for traces, the
    /// terminal's own colour otherwise.
    pub fn tint(&self) -> (s: &'static str)
        ensures
            s@ == self.spec_tint(),
    {
        match self {
            LogLevel::Trace => "\x1b[38;2;128;128;128m",
            _ => "",
        }
    }
}

} // verus!
