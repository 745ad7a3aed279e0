//! The debugging session: the breakpoint table, which outlives processes,
//! and at most one traced process, dropped as soon as it has ended.
use vstd::prelude::*;
use crate::breakpoint::BreakpointTable;
use crate::inferior::{backtrace_outcome, extends, launched, BacktraceError, Inferior};
use crate::tracee::Op;
use crate::status::{ControlError, LaunchError, Status};

verus! {

/// Why a session command could not be carried out.
#[derive(Clone, Copy, Debug, PartialEq, Eq, Structural)]
pub enum SessionError {
    /// No process is being debugged.
    NoProcess,
    /// The new process never became debuggable.
    Launch(LaunchError),
    /// A process-control call failed; the process was killed and dropped.
    Control(ControlError),
}

pub struct Session {
    inferior: Option<Inferior>,
    breakpoints: BreakpointTable,
    dropped: Ghost<Option<Inferior>>,
}

impl Session {
    /// Whether a traced process is held.
    pub closed spec fn live(&self) -> bool {
        self.inferior is Some
    }

    /// The process held, if any.
    pub closed spec fn current(&self) -> Option<Inferior> {
        self.inferior
    }

    /// The last process let go of, in the state it was left in.
    pub closed spec fn dropped(&self) -> Option<Inferior> {
        self.dropped@
    }

    /// The breakpoint addresses, in the order they were set.
    pub closed spec fn table(&self) -> Seq<usize> {
        self.breakpoints@
    }

    /// The held process is well formed, not reaped, and stopped.
    pub closed spec fn wf(&self) -> bool {
        &&& self.breakpoints.wf()
        &&& self.inferior matches Some(inf) ==> inf.wf() && !inf.is_reaped()
            && inf.last_status() is Stopped
    }

    pub fn new() -> (r: Session)
        ensures
            r.wf(),
            !r.live(),
            r.table() == Seq::<usize>::empty(),
    {
        Session { inferior: None, breakpoints: BreakpointTable::new(), dropped: Ghost(None) }
    }

    pub fn breakpoints(&self) -> (r: &BreakpointTable)
        ensures
            r@ == self.table(),
    {
        &self.breakpoints
    }

    pub fn has_inferior(&self) -> (r: bool)
        ensures
            r == self.live(),
    {
        self.inferior.is_some()
    }

    /// Pid of the held process.
    pub fn pid(&self) -> (r: Option<i32>)
        ensures
            r is Some == self.live(),
    {
        match &self.inferior {
            Some(inf) => Some(inf.pid()),
            None => None,
        }
    }

    /// Records a breakpoint for this and every later process; returns how
    /// many breakpoints were set before it. A process that exists gets it
    /// written at its next resume.
    pub fn add_breakpoint(&mut self, addr: usize) -> (r: usize)
        requires
            old(self).wf(),
        ensures
            final(self).wf(),
            final(self).live() == old(self).live(),
            r == old(self).table().len(),
            old(self).table().contains(addr) ==> final(self).table() == old(self).table(),
            !old(self).table().contains(addr) ==> final(self).table() == old(self).table().push(addr),
    {
        let n = self.breakpoints.len();
        self.breakpoints.insert(addr);
        n
    }

    /// Kills and reaps the held process, if any, and drops it.
    pub fn stop_current(&mut self) -> (r: Result<(), ControlError>)
        requires
            old(self).wf(),
        ensures
            final(self).wf(),
            !final(self).live(),
            final(self).table() == old(self).table(),
            !old(self).live() ==> r is Ok,
            old(self).live() ==> ({
                let d = final(self).dropped()->Some_0;
                &&& final(self).dropped() is Some
                &&& d.pid_spec() == old(self).current()->Some_0.pid_spec()
                &&& extends(d.log(), old(self).current()->Some_0.log())
                &&& r is Ok ==> d.is_reaped()
                &&& r is Ok ==> d.log()[old(self).current()->Some_0.log().len() as int] == Op::Kill
            }),
    {
        match self.inferior.take() {
            Some(mut inf) => {
                let ghost pre = inf.log();
                let r = inf.kill_and_reap();
                proof {
                    if r is Ok {
                        assert(inf.log().skip(pre.len() as int)[0] == inf.log()[pre.len() as int]);
                    }
                    self.dropped = Ghost(Some(inf));
                }
                r
            },
            None => Ok(()),
        }
    }

    /// Keeps `inf` after a resume that returned `res`: an ended process is
    /// dropped, a failed one killed and dropped.
    fn settle(&mut self, inf: Inferior, res: Result<Status, ControlError>) -> (r: Result<Status, SessionError>)
        requires
            old(self).breakpoints.wf(),
            old(self).inferior is None,
            inf.wf(),
            res is Ok ==> inf.last_status() == res->Ok_0 && inf.is_reaped() == !(res->Ok_0 is Stopped),
        ensures
            final(self).wf(),
            final(self).table() == old(self).table(),
            res is Ok ==> r == Ok::<Status, SessionError>(res->Ok_0),
            res is Err ==> r == Err::<Status, SessionError>(SessionError::Control(res->Err_0)),
            r matches Ok(st) ==> (final(self).live() <==> st is Stopped),
            r is Err ==> !final(self).live(),
            r matches Ok(st) && st is Stopped ==> final(self).current() == Some(inf),
            r matches Ok(st) && !(st is Stopped) ==> final(self).dropped() == Some(inf),
            r is Err ==> (final(self).dropped() matches Some(d) && d.pid_spec() == inf.pid_spec()
                && extends(d.log(), inf.log())),
    {
        let mut inf = inf;
        match res {
            Ok(st) => {
                if !st.is_terminal() {
                    self.inferior = Some(inf);
                } else {
                    proof {
                        self.dropped = Ghost(Some(inf));
                    }
                }
                Ok(st)
            },
            Err(e) => {
                let _ = inf.kill_and_reap();
                proof {
                    self.dropped = Ghost(Some(inf));
                }
                Err(SessionError::Control(e))
            },
        }
    }

    /// Takes over a freshly spawned traced child and runs it to its first
    /// stop or its end. Any process held before must have been stopped.
    pub fn start(&mut self, pid: i32) -> (r: Result<Status, SessionError>)
        requires
            old(self).wf(),
            !old(self).live(),
            pid > 0,
        ensures
            final(self).wf(),
            final(self).table() == old(self).table(),
            r matches Ok(st) ==> (final(self).live() <==> st is Stopped),
            r is Err ==> !final(self).live(),
            !(r matches Err(SessionError::NoProcess)),
            r matches Err(SessionError::Launch(e)) ==> (final(self).dropped() matches Some(d)
                && d.pid_spec() == pid && launched(d, old(self).table(), Err(e))),
    {
        let mut inf = Inferior::attach(pid);
        match inf.launch(&self.breakpoints) {
            Ok(()) => {},
            Err(e) => {
                proof {
                    self.dropped = Ghost(Some(inf));
                }
                return Err(SessionError::Launch(e));
            },
        }
        let res = inf.cont(&self.breakpoints);
        self.settle(inf, res)
    }

    /// Resumes the held process until its next stop or its end.
    pub fn resume(&mut self) -> (r: Result<Status, SessionError>)
        requires
            old(self).wf(),
        ensures
            final(self).wf(),
            final(self).table() == old(self).table(),
            !old(self).live() ==> r == Err::<Status, SessionError>(SessionError::NoProcess),
            old(self).live() ==> !(r matches Err(SessionError::NoProcess)),
            r matches Ok(st) ==> (final(self).live() <==> st is Stopped),
            r is Err ==> !final(self).live(),
    {
        match self.inferior.take() {
            None => Err(SessionError::NoProcess),
            Some(mut inf) => {
                let res = inf.cont(&self.breakpoints);
                self.settle(inf, res)
            },
        }
    }

    /// Backtrace of the held process; see [`Inferior::backtrace`].
    pub fn backtrace<F: Fn(usize) -> Option<(String, String)>>(&mut self, resolve: F) -> (r: Option<
        Result<Vec<(String, String)>, BacktraceError>,
    >)
        requires
            old(self).wf(),
            forall|a: usize| resolve.requires((a,)),
        ensures
            final(self).wf(),
            final(self).live() == old(self).live(),
            final(self).table() == old(self).table(),
            r is None <==> !old(self).live(),
            r matches Some(res) ==> {
                let o = old(self).current()->Some_0;
                let n = final(self).current()->Some_0;
                &&& final(self).current() is Some
                &&& n.pid_spec() == o.pid_spec()
                &&& extends(n.log(), o.log())
                &&& backtrace_outcome(n.log().skip(o.log().len() as int), resolve, res)
            },
    {
        match self.inferior.take() {
            None => None,
            Some(mut inf) => {
                let res = inf.backtrace(resolve);
                self.inferior = Some(inf);
                Some(res)
            },
        }
    }
}

} // verus!
