//! Command-line level settings: how loud the dependencies' logs are.

use vstd::prelude::*;

use crate::text::{chars_of, matches_at, starts_with};

verus! {

/// Severity of a log record.
#[derive(Clone, Copy, PartialEq, Eq, Structural)]
pub enum LogLevel {
    Error,
    Warn,
    Info,
    Debug,
    Trace,
}

/// A module whose logs are quieted: the file watcher's and the web
/// framework's.
pub open spec fn is_quieted_module(module: Seq<char>) -> bool {
    starts_with(module, "watchexec"@) || starts_with(module, "actix"@)
}

/// The level a record of `level` from `module` is shown at when it
/// comes from a quieted module (information becomes debug output); `None`
/// when the default configuration decides.
pub open spec fn quieted_level(module: Option<Seq<char>>, level: LogLevel) -> Option<LogLevel> {
    match module {
        Some(m) => if is_quieted_module(m) {
            Some(
                if level == LogLevel::Info {
                    LogLevel::Debug
                } else {
                    level
                },
            )
        } else {
            None
        },
        None => None,
    }
}

/// The level to show a dependency's log record at, or `None` to leave the
/// record to the default configuration.
pub fn dependency_log_level(module: Option<&str>, level: LogLevel) -> (r: Option<LogLevel>)
    ensures
        r == quieted_level(
            match module {
                Some(m) => Some(m@),
                None => None,
            },
            level,
        ),
{
    match module {
        Some(m) => {
            let cs = chars_of(m);
            let w = chars_of("watchexec");
            let a = chars_of("actix");
            if matches_at(&cs, 0, &w) || matches_at(&cs, 0, &a) {
                Some(
                    if level == LogLevel::Info {
                        LogLevel::Debug
                    } else {
                        level
                    },
                )
            } else {
                None
            }
        },
        None => None,
    }
}

} // verus!
