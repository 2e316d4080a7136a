//! Log levels and how a log line of each level is dressed.

use vstd::prelude::*;

verus! {

/// The level of a log line.
#[derive(Clone, Copy, Debug, PartialEq, Eq, Structural)]
pub enum LogLevel {
    Error,
    Warn,
    Info,
    Debug,
}

impl LogLevel {
    /// The terminal colour code of the level's lines.
    pub open spec fn spec_color(self) -> u8 {
        match self {
            LogLevel::Error => 31,
            LogLevel::Warn => 33,
            LogLevel::Info => 32,
            LogLevel::Debug => 34,
        }
    }

    /// The terminal colour code of the level's lines: red for errors,
    /// yellow for warnings, green for information, blue for debugging.
    #[verifier::when_used_as_spec(spec_color)]
    pub fn color(self) -> (r: u8)
        ensures
            r == self.spec_color(),
    {
        match self {
            LogLevel::Error => 31,
            LogLevel::Warn => 33,
            LogLevel::Info => 32,
            LogLevel::Debug => 34,
        }
    }

    /// The tag that a line of the level begins with.
    pub fn tag(self) -> (r: &'static str)
        ensures
            r@ == match self {
                LogLevel::Error => "[error] "@,
                LogLevel::Warn => "[warn] "@,
                LogLevel::Info => "[info] "@,
                LogLevel::Debug => "[debug] "@,
            },
    {
        match self {
            LogLevel::Error => "[error] ",
            LogLevel::Warn => "[warn] ",
            LogLevel::Info => "[info] ",
            LogLevel::Debug => "[debug] ",
        }
    }
}

} // verus!
