//! Names of the server's threads.

use vstd::prelude::*;

verus! {

/// The long-running threads of the server.
#[derive(Clone, Copy, PartialEq, Eq, Structural)]
pub enum ThreadName {
    Watchexec,
    Reloader,
    Server,
}

/// The short label of a thread, as it appears in log lines.
pub open spec fn thread_label(name: ThreadName) -> Seq<char> {
    match name {
        ThreadName::Watchexec => "wch"@,
        ThreadName::Reloader => "rld"@,
        ThreadName::Server => "srv"@,
    }
}

impl ThreadName {
    /// The short label of this thread.
    pub fn label(self) -> (s: &'static str)
        ensures
            s@ == thread_label(self),
    {
        match self {
            ThreadName::Watchexec => "wch",
            ThreadName::Reloader => "rld",
            ThreadName::Server => "srv",
        }
    }
}

impl From<ThreadName> for String {
    fn from(value: ThreadName) -> (s: String)
        ensures
            s@ == thread_label(value),
    {
        String::from_str(value.label())
    }
}

/// A `String` is only known by its characters, so `from` is specified by
/// its own `ensures` rather than by a spec function equal to its result.
impl vstd::std_specs::convert::FromSpecImpl<ThreadName> for String {
    open spec fn obeys_from_spec() -> bool {
        false
    }

    open spec fn from_spec(v: ThreadName) -> String {
        arbitrary()
    }
}

} // verus!
