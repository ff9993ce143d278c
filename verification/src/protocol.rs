//! Connection-protocol decisions: what the worker thread does with one line
//! it read, which descriptor a readiness event belongs to, what a delivered
//! signal asks for, and whether a failed call is worth retrying.
//!
//! The event loop and the worker threads perform the waiting, reading and
//! writing; every choice they make between two behaviours is taken here.

use vstd::prelude::*;

use crate::text::{spec_trim, str_eq, trim};
use vstd::string::StrSliceExecFns;

verus! {

/// What the worker does next with one line read from its client.
#[derive(Clone, Copy, PartialEq, Eq, Structural, Debug)]
pub enum ReplAction {
    /// The line was all whitespace: show the prompt again, answer nothing.
    Prompt,
    /// The client asked to leave: close without a reply.
    Close,
    /// A command: hand the line to the dispatcher and reply.
    Dispatch,
}

/// The worker's decision for one line: prompt again on an all-whitespace
/// line, close without a reply on `quit` or `exit`, dispatch anything else.
pub fn repl_step(input: &str) -> (a: ReplAction)
    ensures
        a == (if spec_trim(input@).len() == 0 {
            ReplAction::Prompt
        } else if spec_trim(input@) == "quit"@ || spec_trim(input@) == "exit"@ {
            ReplAction::Close
        } else {
            ReplAction::Dispatch
        }),
{
    let t = trim(input);
    if t.as_str().unicode_len() == 0 {
        ReplAction::Prompt
    } else if str_eq(t.as_str(), "quit") || str_eq(t.as_str(), "exit") {
        ReplAction::Close
    } else {
        ReplAction::Dispatch
    }
}

/// Whose readiness an event reports.
#[derive(Clone, Copy, PartialEq, Eq, Structural, Debug)]
pub enum EventSource {
    /// The signal-notification descriptor.
    Signal,
    /// The listening socket.
    Listener,
    /// Neither: the event loop reports it and goes on.
    Unknown,
}

/// Which descriptor a readiness event belongs to.  The signal descriptor is
/// checked first, as the event loop does.
pub fn classify_event(fd: i32, signal_fd: i32, sock_fd: i32) -> (r: EventSource)
    ensures
        r == (if fd == signal_fd {
            EventSource::Signal
        } else if fd == sock_fd {
            EventSource::Listener
        } else {
            EventSource::Unknown
        }),
{
    if fd == signal_fd {
        EventSource::Signal
    } else if fd == sock_fd {
        EventSource::Listener
    } else {
        EventSource::Unknown
    }
}

/// What the event loop does on a delivered signal.
#[derive(Clone, Copy, PartialEq, Eq, Structural, Debug)]
pub enum SignalAction {
    /// The terminate signal: leave the accept loop and shut down.
    Terminate,
    /// The compaction-request signal: compact the store on this thread.
    Compact,
    /// Any other signal: note it and continue.
    Ignore,
}

/// The event loop's decision for one delivered signal number, given the
/// designated terminate and compaction-request signals.
pub fn signal_action(signal: i32, terminate_signal: i32, compact_signal: i32) -> (r: SignalAction)
    ensures
        r == (if signal == terminate_signal {
            SignalAction::Terminate
        } else if signal == compact_signal {
            SignalAction::Compact
        } else {
            SignalAction::Ignore
        }),
{
    if signal == terminate_signal {
        SignalAction::Terminate
    } else if signal == compact_signal {
        SignalAction::Compact
    } else {
        SignalAction::Ignore
    }
}

/// Whether a failed call is retried or gives up.
#[derive(Clone, Copy, PartialEq, Eq, Structural, Debug)]
pub enum IoDisposition {
    /// A transient failure: repeat the same step.
    Retry,
    /// Anything else: abort the enclosing work.
    Fatal,
}

/// How a failed system call is classified, given the error number and the
/// two transient error numbers (interrupted call and would-block).
pub fn classify_errno(errno: i32, eintr: i32, eagain: i32) -> (r: IoDisposition)
    ensures
        r == (if errno == eintr || errno == eagain {
            IoDisposition::Retry
        } else {
            IoDisposition::Fatal
        }),
{
    if errno == eintr || errno == eagain {
        IoDisposition::Retry
    } else {
        IoDisposition::Fatal
    }
}

} // verus!
