//! The OS process-control capability over one traced child.
//!
//! Each call goes to the kernel through nix. What the kernel answers depends
//! on the child, so no call promises a value; instead every successful call
//! is recorded in a ghost log of operations, over which callers state the
//! order in which primitives were issued and what they returned.
use vstd::prelude::*;
use crate::status::{ControlError, WaitEvent};
use nix::sys::ptrace;
use nix::sys::signal::{self, Signal};
use nix::sys::wait::{waitpid, WaitPidFlag, WaitStatus};
use nix::unistd::Pid;

verus! {

/// One successful process-control call and what it returned.
#[derive(Clone, Copy, Debug, PartialEq, Eq, Structural)]
pub enum Op {
    /// A wait returned this state change.
    Waited(WaitEvent),
    /// The registers held this instruction pointer and frame base.
    Regs { ip: usize, frame: usize },
    /// The word at this aligned address held this value.
    Peek(usize, u64),
    /// This value was written to the word at this aligned address.
    Poke(usize, u64),
    /// The instruction pointer was set.
    SetIp(usize),
    /// One instruction was single-stepped.
    Step,
    /// Execution was resumed until the next stop.
    Cont,
    /// The process was sent `SIGKILL`.
    Kill,
}

/// Handle to a traced child: its pid and the log of calls made on it.
pub struct Tracee {
    pid: i32,
    ops: Ghost<Seq<Op>>,
}

impl Tracee {
    pub closed spec fn pid_spec(&self) -> i32 {
        self.pid
    }

    /// Every successful call made through this handle, oldest first.
    pub closed spec fn log(&self) -> Seq<Op> {
        self.ops@
    }

    pub(crate) fn new(pid: i32) -> (r: Tracee)
        ensures
            r.pid_spec() == pid,
            r.log() == Seq::<Op>::empty(),
    {
        Tracee { pid, ops: Ghost(Seq::empty()) }
    }

    pub fn pid(&self) -> (r: i32)
        ensures
            r == self.pid_spec(),
    {
        self.pid
    }

    /// Relies on nix::sys::wait::waitpid on this pid, with `WNOHANG` when
    /// `nonblocking`: waits for the child to change state; the variants are
    /// carried over one for one. `StillAlive` is only returned under
    /// `WNOHANG`, as its documentation states.
    #[verifier::external_body]
    pub(crate) fn wait_event(&mut self, nonblocking: bool) -> (r: Result<WaitEvent, ControlError>)
        ensures
            final(self).pid_spec() == old(self).pid_spec(),
            r is Ok ==> final(self).log() == old(self).log().push(Op::Waited(r->Ok_0)),
            r is Err ==> final(self).log() == old(self).log() && r->Err_0 is Os,
            !nonblocking && r is Ok ==> !(r->Ok_0 is StillAlive),
    {
        let flags = if nonblocking { Some(WaitPidFlag::WNOHANG) } else { None };
        match waitpid(Pid::from_raw(self.pid), flags) {
            Ok(WaitStatus::Exited(_, code)) => Ok(WaitEvent::Exited(code)),
            Ok(WaitStatus::Signaled(_, sig, _)) => Ok(WaitEvent::Signaled(sig as i32)),
            Ok(WaitStatus::Stopped(_, sig)) => Ok(WaitEvent::Stopped(sig as i32)),
            Ok(WaitStatus::StillAlive) => Ok(WaitEvent::StillAlive),
            Ok(_) => Ok(WaitEvent::Other),
            Err(e) => Err(ControlError::Os(e as i32)),
        }
    }

    /// Relies on nix::sys::ptrace::getregs: reads `rip` and `rbp`.
    #[verifier::external_body]
    pub(crate) fn read_regs(&mut self) -> (r: Result<(usize, usize), ControlError>)
        ensures
            final(self).pid_spec() == old(self).pid_spec(),
            r is Ok ==> final(self).log() == old(self).log().push(
                Op::Regs { ip: r->Ok_0.0, frame: r->Ok_0.1 },
            ),
            r is Err ==> final(self).log() == old(self).log() && r->Err_0 is Os,
    {
        match ptrace::getregs(Pid::from_raw(self.pid)) {
            Ok(regs) => Ok((regs.rip as usize, regs.rbp as usize)),
            Err(e) => Err(ControlError::Os(e as i32)),
        }
    }

    /// Relies on nix::sys::ptrace::read (`PTRACE_PEEKDATA`): the word at `addr`.
    #[verifier::external_body]
    pub(crate) fn peek(&mut self, addr: usize) -> (r: Result<u64, ControlError>)
        ensures
            final(self).pid_spec() == old(self).pid_spec(),
            r is Ok ==> final(self).log() == old(self).log().push(Op::Peek(addr, r->Ok_0)),
            r is Err ==> final(self).log() == old(self).log() && r->Err_0 is Os,
    {
        match ptrace::read(Pid::from_raw(self.pid), addr as ptrace::AddressType) {
            Ok(w) => Ok(w as u64),
            Err(e) => Err(ControlError::Os(e as i32)),
        }
    }

    /// Relies on nix::sys::ptrace::write (`PTRACE_POKEDATA`): stores `w` at `addr`.
    #[verifier::external_body]
    pub(crate) fn poke(&mut self, addr: usize, w: u64) -> (r: Result<(), ControlError>)
        ensures
            final(self).pid_spec() == old(self).pid_spec(),
            r is Ok ==> final(self).log() == old(self).log().push(Op::Poke(addr, w)),
            r is Err ==> final(self).log() == old(self).log() && r->Err_0 is Os,
    {
        match ptrace::write(Pid::from_raw(self.pid), addr as ptrace::AddressType, w as i64) {
            Ok(()) => Ok(()),
            Err(e) => Err(ControlError::Os(e as i32)),
        }
    }

    /// Relies on nix::sys::ptrace::getregs and setregs: stores `ip` in `rip`
    /// and keeps every other register.
    #[verifier::external_body]
    pub(crate) fn set_ip(&mut self, ip: usize) -> (r: Result<(), ControlError>)
        ensures
            final(self).pid_spec() == old(self).pid_spec(),
            r is Ok ==> final(self).log() == old(self).log().push(Op::SetIp(ip)),
            r is Err ==> final(self).log() == old(self).log() && r->Err_0 is Os,
    {
        let pid = Pid::from_raw(self.pid);
        match ptrace::getregs(pid) {
            Ok(mut regs) => {
                regs.rip = ip as u64;
                ptrace::setregs(pid, regs).map_err(|e| ControlError::Os(e as i32))
            },
            Err(e) => Err(ControlError::Os(e as i32)),
        }
    }

    /// Relies on nix::sys::ptrace::step: runs one instruction, no signal sent.
    #[verifier::external_body]
    pub(crate) fn step(&mut self) -> (r: Result<(), ControlError>)
        ensures
            final(self).pid_spec() == old(self).pid_spec(),
            r is Ok ==> final(self).log() == old(self).log().push(Op::Step),
            r is Err ==> final(self).log() == old(self).log() && r->Err_0 is Os,
    {
        ptrace::step(Pid::from_raw(self.pid), None).map_err(|e| ControlError::Os(e as i32))
    }

    /// Relies on nix::sys::ptrace::cont: resumes the child, no signal sent.
    #[verifier::external_body]
    pub(crate) fn cont(&mut self) -> (r: Result<(), ControlError>)
        ensures
            final(self).pid_spec() == old(self).pid_spec(),
            r is Ok ==> final(self).log() == old(self).log().push(Op::Cont),
            r is Err ==> final(self).log() == old(self).log() && r->Err_0 is Os,
    {
        ptrace::cont(Pid::from_raw(self.pid), None).map_err(|e| ControlError::Os(e as i32))
    }

    /// Relies on nix::sys::signal::kill: sends `SIGKILL` to this one pid
    /// (a positive pid names a single process).
    #[verifier::external_body]
    pub(crate) fn kill(&mut self) -> (r: Result<(), ControlError>)
        requires
            old(self).pid_spec() > 0,
        ensures
            final(self).pid_spec() == old(self).pid_spec(),
            r is Ok ==> final(self).log() == old(self).log().push(Op::Kill),
            r is Err ==> final(self).log() == old(self).log() && r->Err_0 is Os,
    {
        signal::kill(Pid::from_raw(self.pid), Signal::SIGKILL).map_err(|e| ControlError::Os(e as i32))
    }
}

} // verus!
