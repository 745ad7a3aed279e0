//! What a wait on the tracee reports, and the errors of process control.
use vstd::prelude::*;

verus! {

/// Signal number of `SIGTRAP`, raised by a breakpoint, a single step, and the
/// first stop of a freshly traced child.
pub const SIGTRAP: i32 = 5;

/// State of a traced process after a wait.
#[derive(Clone, Copy, Debug, PartialEq, Eq, Structural)]
pub enum Status {
    /// Halted by a signal; holds the signal and the instruction pointer as
    /// read at the stop. After a breakpoint trap that is one past the
    /// breakpoint's address, since the trap byte has executed.
    Stopped(i32, usize),
    /// Exited normally with the given code.
    Exited(i32),
    /// Terminated by the given signal.
    Signaled(i32),
}

impl Status {
    /// A terminal status admits no further interaction with the process.
    pub fn is_terminal(&self) -> (r: bool)
        ensures
            r == !(*self is Stopped),
    {
        match self {
            Status::Stopped(_, _) => false,
            _ => true,
        }
    }
}

/// A raw state change, as the OS reports it before registers are read.
#[derive(Clone, Copy, Debug, PartialEq, Eq, Structural)]
pub enum WaitEvent {
    Exited(i32),
    Signaled(i32),
    Stopped(i32),
    /// No change yet; only reported to a non-blocking wait.
    StillAlive,
    /// Any shape that a simply traced child cannot produce.
    Other,
}

/// A failed process-control call.
#[derive(Clone, Copy, Debug, PartialEq, Eq, Structural)]
pub enum ControlError {
    /// The OS call failed with this errno.
    Os(i32),
    /// The wait reported a state that simple tracing never produces: an
    /// internal invariant is broken and the session must not go on.
    Unexpected,
}

/// Why a launch did not yield a debuggable process.
#[derive(Clone, Copy, Debug, PartialEq, Eq, Structural)]
pub enum LaunchError {
    /// Waiting for the first stop failed.
    Wait(ControlError),
    /// The first stop was not the trap of a freshly traced child.
    NotTrapped(Status),
    /// The process was stopped, but the breakpoint at this address could not
    /// be written.
    Install(usize),
    /// The launch failed and the child could not then be killed and reaped.
    NotReaped(ControlError),
}

/// Whether a first stop is the trap that a freshly traced child raises.
pub open spec fn is_launch_trap(s: Status) -> bool {
    s matches Status::Stopped(sig, _) && sig == SIGTRAP
}

} // verus!
