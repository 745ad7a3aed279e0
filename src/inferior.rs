//! A live traced process: launch hand-off, waiting, breakpoint-aware resume,
//! kill and reap, and the frame-pointer stack walk.
use vstd::prelude::*;
use crate::breakpoint::{Breakpoint, BreakpointTable};
use crate::patch::{
    align_addr_to_word, lemma_patched_lanes, lemma_restore_after_install, byte_of, patch_word, patched, word_base, word_offset, TRAP_OPCODE,
};
use crate::status::{is_launch_trap, ControlError, LaunchError, Status, WaitEvent, SIGTRAP};
use crate::text::str_eq;
use crate::tracee::{Op, Tracee};

verus! {

/// Whether `bps` holds a breakpoint at `addr`.
pub open spec fn has_bp(bps: Seq<Breakpoint>, addr: usize) -> bool {
    exists|i: int| 0 <= i < bps.len() && (#[trigger] bps[i]).addr == addr
}

/// No address occurs twice in `bps`.
pub open spec fn unique_addrs(bps: Seq<Breakpoint>) -> bool {
    forall|i: int, j: int|
        0 <= i < bps.len() && 0 <= j < bps.len() && i != j ==> #[trigger] bps[i].addr
            != #[trigger] bps[j].addr
}

/// `post` is `pre` followed by the read-modify-write of the byte at `addr`:
/// its word was read, its lane held `orig`, and the word was written back
/// with that lane set to `val` and every other bit kept.
pub open spec fn wrote_byte(pre: Seq<Op>, post: Seq<Op>, addr: usize, val: u8, orig: u8) -> bool {
    &&& post.len() == pre.len() + 2
    &&& extends(post, pre)
    &&& (post[pre.len() as int] matches Op::Peek(a, w) && a == word_base(addr) && orig == byte_of(
        w,
        word_offset(addr),
    ) && post[pre.len() as int + 1] == Op::Poke(word_base(addr), patched(w, word_offset(addr), val)))
}

/// `ops` is what one wait that reported `st` records: the state change, and
/// for a stop the registers, whose instruction pointer `st` carries.
pub open spec fn wait_record(ops: Seq<Op>, st: Status) -> bool {
    match st {
        Status::Exited(code) => ops == seq![Op::Waited(WaitEvent::Exited(code))],
        Status::Signaled(sig) => ops == seq![Op::Waited(WaitEvent::Signaled(sig))],
        Status::Stopped(sig, ip) => {
            &&& ops.len() == 2
            &&& ops[0] == Op::Waited(WaitEvent::Stopped(sig))
            &&& (ops[1] matches Op::Regs { ip: i, frame: _ } && i == ip)
        },
    }
}

/// `post` begins with all of `pre`.
pub open spec fn extends(post: Seq<Op>, pre: Seq<Op>) -> bool {
    pre.len() <= post.len() && forall|k: int| 0 <= k < pre.len() ==> #[trigger] post[k] == pre[k]
}

/// `r` is what a wait returns when its calls recorded `ops`: a failed
/// `waitpid` records nothing; each state change maps to its status; a stop
/// also reads the registers, whose failure leaves only the state change;
/// no change yet gives `None`; an impossible shape gives `Unexpected`.
pub open spec fn wait_outcome(ops: Seq<Op>, r: Result<Option<Status>, ControlError>) -> bool {
    if ops.len() == 0 {
        r matches Err(ControlError::Os(_))
    } else {
        match ops[0] {
            Op::Waited(WaitEvent::Exited(c)) => ops.len() == 1 && r == Ok::<Option<Status>, ControlError>(
                Some(Status::Exited(c)),
            ),
            Op::Waited(WaitEvent::Signaled(s)) => ops.len() == 1 && r == Ok::<
                Option<Status>,
                ControlError,
            >(Some(Status::Signaled(s))),
            Op::Waited(WaitEvent::Stopped(s)) => (ops.len() == 2 && ops[1] is Regs && r == Ok::<
                Option<Status>,
                ControlError,
            >(Some(Status::Stopped(s, op_ip(ops[1]))))) || (ops.len() == 1 && r matches Err(
                ControlError::Os(_),
            )),
            Op::Waited(WaitEvent::StillAlive) => ops.len() == 1 && r == Ok::<Option<Status>, ControlError>(
                None,
            ),
            Op::Waited(WaitEvent::Other) => ops.len() == 1 && r == Err::<Option<Status>, ControlError>(
                ControlError::Unexpected,
            ),
            _ => false,
        }
    }
}

/// The outcome of a blocking wait, which never reports "no change".
pub open spec fn blocking_outcome(ops: Seq<Op>, r: Result<Status, ControlError>) -> bool {
    match r {
        Ok(st) => wait_outcome(ops, Ok(Some(st))),
        Err(e) => wait_outcome(ops, Err(e)),
    }
}

/// `p`, `q` read the word of `bp.addr`, whose lane held `bp.orig_byte`, and
/// wrote it back with the trap in that lane and every other bit kept.
pub open spec fn wrote_pair(p: Op, q: Op, bp: Breakpoint) -> bool {
    p matches Op::Peek(a, w) && a == word_base(bp.addr) && byte_of(w, word_offset(bp.addr))
        == bp.orig_byte && q == Op::Poke(a, patched(w, word_offset(bp.addr), TRAP_OPCODE))
}

/// `ops` are exactly the trap writes of `bps`, in order, two calls each.
pub open spec fn install_ops(ops: Seq<Op>, bps: Seq<Breakpoint>) -> bool {
    &&& ops.len() == 2 * bps.len()
    &&& forall|k: int| 0 <= k < bps.len() ==> wrote_pair(ops[2 * k], ops[2 * k + 1], #[trigger] bps[k])
}

proof fn lemma_install_ops_push(ops: Seq<Op>, bps: Seq<Breakpoint>, p: Op, q: Op, bp: Breakpoint)
    requires
        install_ops(ops, bps),
        wrote_pair(p, q, bp),
    ensures
        install_ops(ops.push(p).push(q), bps.push(bp)),
{
    let o2 = ops.push(p).push(q);
    let b2 = bps.push(bp);
    assert forall|k: int| 0 <= k < b2.len() implies wrote_pair(o2[2 * k], o2[2 * k + 1], #[trigger] b2[k]) by {
        if k < bps.len() {
            assert(o2[2 * k] == ops[2 * k]);
            assert(o2[2 * k + 1] == ops[2 * k + 1]);
            assert(b2[k] == bps[k]);
        }
    }
}

/// Only memory words were read or written in `ops`.
pub open spec fn only_memory(ops: Seq<Op>) -> bool {
    forall|i: int| 0 <= i < ops.len() ==> (#[trigger] ops[i] is Peek || ops[i] is Poke)
}

/// `op` writes the word that holds `a` with the lane of `a` equal to `b`.
pub open spec fn writes_lane(op: Op, a: usize, b: u8) -> bool {
    op matches Op::Poke(base, w) && base == word_base(a) && byte_of(w, word_offset(a)) == b
}

/// In `ops` the breakpoint at `a`, whose replaced byte is `orig`, is passed:
/// the byte is put back, the instruction pointer set to `a`, and that one
/// instruction stepped, all before any resume; and the trap is written again
/// before any resume that follows.
pub open spec fn steps_over(ops: Seq<Op>, a: usize, orig: u8) -> bool {
    exists|i: int|
        #![trigger ops[i]]
        {
            &&& 0 <= i
            &&& i + 2 < ops.len()
            &&& writes_lane(ops[i], a, orig)
            &&& ops[i + 1] == Op::SetIp(a)
            &&& ops[i + 2] == Op::Step
            &&& forall|m: int| 0 <= m < i ==> #[trigger] ops[m] != Op::Cont
            &&& forall|c: int|
                i + 2 < c < ops.len() && #[trigger] ops[c] == Op::Cont ==> exists|q: int|
                    i + 2 < q < c && writes_lane(#[trigger] ops[q], a, TRAP_OPCODE)
        }
}

/// `ops` ends with a resume and then the wait that reported `st`.
pub open spec fn resumed(ops: Seq<Op>, st: Status) -> bool {
    exists|k: int| 0 <= k < ops.len() && #[trigger] ops[k] == Op::Cont && wait_record(ops.skip(k + 1), st)
}

/// Whether a process stopped in state `st` sits just past the trap of the
/// breakpoint at `a`.
pub open spec fn trapped_at(st: Status, a: usize) -> bool {
    st matches Status::Stopped(sig, ip) && sig == SIGTRAP && ip >= 1 && a == ip - 1
}

/// `ops` is the passing of the breakpoint at `a`: its word read, its lane
/// set back to `orig`, the instruction pointer set to `a`, one step, and, if
/// `reinstalled`, the trap written again as the last operation. No resume
/// occurs among them.
pub open spec fn passed_ops(ops: Seq<Op>, a: usize, orig: u8, reinstalled: bool) -> bool {
    &&& ops.len() >= 4
    &&& ops[0] is Peek
    &&& writes_lane(ops[1], a, orig)
    &&& ops[2] == Op::SetIp(a)
    &&& ops[3] == Op::Step
    &&& forall|m: int| 0 <= m < ops.len() ==> #[trigger] ops[m] != Op::Cont
    &&& reinstalled ==> writes_lane(ops.last(), a, TRAP_OPCODE)
}

/// A wait record holds no resume.
pub proof fn lemma_wait_record_no_cont(ops: Seq<Op>, st: Status)
    requires
        wait_record(ops, st),
    ensures
        forall|k: int| 0 <= k < ops.len() ==> #[trigger] ops[k] != Op::Cont,
{
}

/// Name of the function at which a stack walk ends.
pub open spec fn entry_function() -> Seq<char> {
    seq!['m', 'a', 'i', 'n']
}

/// Largest number of frames a stack walk reports.
pub const MAX_FRAMES: usize = 4096;

/// Instruction pointer read by a register read, else zero.
pub open spec fn op_ip(op: Op) -> usize {
    match op {
        Op::Regs { ip, frame: _ } => ip,
        _ => 0,
    }
}

/// Frame base read by a register read, else zero.
pub open spec fn op_frame(op: Op) -> usize {
    match op {
        Op::Regs { ip: _, frame } => frame,
        _ => 0,
    }
}

/// Address of a word read, else zero.
pub open spec fn peek_addr(op: Op) -> usize {
    match op {
        Op::Peek(a, _) => a,
        _ => 0,
    }
}

/// Value of a word read, else zero.
pub open spec fn peek_val(op: Op) -> u64 {
    match op {
        Op::Peek(_, w) => w,
        _ => 0,
    }
}

/// Value of a word write, else zero.
pub open spec fn poke_val(op: Op) -> u64 {
    match op {
        Op::Poke(_, w) => w,
        _ => 0,
    }
}

/// In the operations of a stack walk, the instruction pointer of frame `i`:
/// the register for the innermost frame, else the saved return address.
pub open spec fn frame_ip(ops: Seq<Op>, i: int) -> usize {
    if i == 0 {
        op_ip(ops[0])
    } else {
        peek_val(ops[2 * i - 1]) as usize
    }
}

/// In the operations of a stack walk, the frame base of frame `i`.
pub open spec fn frame_base(ops: Seq<Op>, i: int) -> usize {
    if i == 0 {
        op_frame(ops[0])
    } else {
        peek_val(ops[2 * i]) as usize
    }
}

/// `ops` walks `n` frames by frame pointers: the registers are read, then
/// for each caller its return address at `base + 8` and its saved frame
/// base at `base`, where `base` is the frame base of the callee.
pub open spec fn walk_ops(ops: Seq<Op>, n: int) -> bool {
    &&& n >= 1
    &&& ops.len() == 2 * n - 1
    &&& ops[0] is Regs
    &&& forall|i: int|
        1 <= i < n ==> {
            &&& (#[trigger] ops[2 * i - 1]) is Peek
            &&& peek_addr(ops[2 * i - 1]) == frame_base(ops, i - 1) + 8
            &&& ops[2 * i] is Peek
            &&& peek_addr(ops[2 * i]) == frame_base(ops, i - 1)
        }
}

/// The first `n` frames of the walk recorded in `ops` resolved, none of them
/// to the entry function.
pub open spec fn resolved_walk<F: Fn(usize) -> Option<(String, String)>>(ops: Seq<Op>, resolve: F, n: int) -> bool {
    exists|fs: Seq<(String, String)>|
        #![trigger fs.len()]
        fs.len() == n && forall|i: int|
            0 <= i < n ==> resolve.ensures((frame_ip(ops, i),), Some(#[trigger] fs[i])) && fs[i].0@
                != entry_function()
}

/// `r` is what a stack walk that recorded `ops` returns: the frames up to
/// the entry function, or the reason the walk stopped.
pub open spec fn backtrace_outcome<F: Fn(usize) -> Option<(String, String)>>(
    ops: Seq<Op>,
    resolve: F,
    r: Result<Vec<(String, String)>, BacktraceError>,
) -> bool {
    match r {
        Ok(v) => {
            let fs = v@;
            &&& 1 <= fs.len() <= MAX_FRAMES
            &&& walk_ops(ops, fs.len() as int)
            &&& forall|i: int| 0 <= i < fs.len() ==> resolve.ensures((frame_ip(ops, i),), Some(#[trigger] fs[i]))
            &&& forall|i: int| 0 <= i < fs.len() - 1 ==> (#[trigger] fs[i]).0@ != entry_function()
            &&& fs.last().0@ == entry_function()
            &&& fs[0].0@ == entry_function() ==> fs.len() == 1
        },
        Err(BacktraceError::Truncated) => walk_ops(ops, MAX_FRAMES + 1) && resolved_walk(
            ops,
            resolve,
            MAX_FRAMES as int,
        ),
        Err(BacktraceError::Unresolved(a)) => {
            let n = (ops.len() - 1) / 2;
            &&& ops.len() % 2 == 1
            &&& walk_ops(ops, n + 1)
            &&& resolved_walk(ops, resolve, n)
            &&& a == frame_ip(ops, n)
            &&& resolve.ensures((a,), None)
        },
        Err(BacktraceError::BadFrame(b)) => {
            let n = (ops.len() - 1) / 2;
            &&& ops.len() % 2 == 1
            &&& walk_ops(ops, n + 1)
            &&& resolved_walk(ops, resolve, n + 1)
            &&& b == frame_base(ops, n)
            &&& b + 8 > usize::MAX
        },
        Err(BacktraceError::Control(_)) => ops.len() == 0 || exists|n: int|
            1 <= n && (ops.len() == 2 * n - 1 || ops.len() == 2 * n) && walk_ops(
                #[trigger] ops.take(2 * n - 1),
                n,
            ) && resolved_walk(ops.take(2 * n - 1), resolve, n),
    }
}

/// Why a stack walk gave no backtrace.
#[derive(Clone, Copy, Debug, PartialEq, Eq, Structural)]
pub enum BacktraceError {
    /// Reading registers or stack memory failed.
    Control(ControlError),
    /// The resolver knows no function at this address.
    Unresolved(usize),
    /// A frame base so large that its return-address slot cannot be named.
    BadFrame(usize),
    /// The walk reached the frame limit without meeting the entry function.
    Truncated,
}

/// Writing the trap at `a` and then writing back the byte it replaced, with
/// the word left alone in between, stores the very word that was read
/// before the trap: the memory at `a` and around it is as it was.
pub proof fn lemma_install_then_restore(l0: Seq<Op>, l1: Seq<Op>, l2: Seq<Op>, a: usize, orig: u8, t: u8)
    requires
        wrote_byte(l0, l1, a, TRAP_OPCODE, orig),
        wrote_byte(l1, l2, a, orig, t),
        peek_val(l2[l1.len() as int]) == poke_val(l1.last()),
    ensures
        t == TRAP_OPCODE,
        l2.last() == Op::Poke(word_base(a), peek_val(l1[l0.len() as int])),
{
    let w0 = peek_val(l1[l0.len() as int]);
    let k = word_offset(a);
    assert(k < 8);
    lemma_patched_lanes(w0, k, TRAP_OPCODE);
    lemma_restore_after_install(w0, k, TRAP_OPCODE);
}

/// What a kill-and-reap returns once the reaping wait returned `w`: only a
/// terminal status counts as reaped.
pub open spec fn reap_result(w: Result<Status, ControlError>) -> Result<(), ControlError> {
    match w {
        Ok(st) => if st is Stopped {
            Err(ControlError::Unexpected)
        } else {
            Ok(())
        },
        Err(e) => Err(e),
    }
}

/// The status that the first wait recorded at the start of `ops`, if it
/// returned one.
pub open spec fn first_stop(ops: Seq<Op>) -> Option<Status> {
    if ops.len() == 0 {
        None
    } else {
        match ops[0] {
            Op::Waited(WaitEvent::Exited(c)) => Some(Status::Exited(c)),
            Op::Waited(WaitEvent::Signaled(s)) => Some(Status::Signaled(s)),
            Op::Waited(WaitEvent::Stopped(s)) => if ops.len() >= 2 && ops[1] is Regs {
                Some(Status::Stopped(s, op_ip(ops[1])))
            } else {
                None
            },
            _ => None,
        }
    }
}

/// Decides a launch from its first wait: a failed wait, or a first stop that
/// is not the trap of a freshly traced program, fails it.
pub fn check_first_stop(first: Result<Status, ControlError>) -> (r: Result<(), LaunchError>)
    ensures
        first is Err ==> r == Err::<(), LaunchError>(LaunchError::Wait(first->Err_0)),
        first is Ok && is_launch_trap(first->Ok_0) ==> r is Ok,
        first is Ok && !is_launch_trap(first->Ok_0) ==> r == Err::<(), LaunchError>(
            LaunchError::NotTrapped(first->Ok_0),
        ),
{
    match first {
        Err(e) => Err(LaunchError::Wait(e)),
        Ok(s) => match s {
            Status::Stopped(sig, _) => if sig == SIGTRAP {
                Ok(())
            } else {
                Err(LaunchError::NotTrapped(s))
            },
            _ => Err(LaunchError::NotTrapped(s)),
        },
    }
}

/// What a launch that ended with `inf` and returned `r` did: one wait,
/// then the trap written at every address of `table` if the first stop was
/// the launch trap; otherwise the child killed and reaped.
pub open spec fn launched(inf: Inferior, table: Seq<usize>, r: Result<(), LaunchError>) -> bool {
    let ops = inf.log();
    &&& inf.wf()
    &&& first_stop(ops) is None ==> (r matches Err(LaunchError::Wait(_))) || (r matches Err(
        LaunchError::NotReaped(_),
    ))
    &&& first_stop(ops) is Some && !is_launch_trap(first_stop(ops)->Some_0) ==> r == Err::<
        (),
        LaunchError,
    >(LaunchError::NotTrapped(first_stop(ops)->Some_0)) || (r matches Err(LaunchError::NotReaped(_)))
    &&& first_stop(ops) is Some && is_launch_trap(first_stop(ops)->Some_0) ==> r is Ok || (r matches Err(
        LaunchError::Install(_),
    )) || (r matches Err(LaunchError::NotReaped(_)))
    &&& r is Ok ==> {
        &&& !inf.is_reaped()
        &&& first_stop(ops) == Some(inf.last_status())
        &&& is_launch_trap(inf.last_status())
        &&& wait_record(ops.take(2), inf.last_status())
        &&& install_ops(ops.skip(2), inf.installed())
        &&& forall|a: usize| #[trigger] table.contains(a) ==> has_bp(inf.installed(), a)
        &&& forall|i: int| 0 <= i < inf.installed().len() ==> table.contains(
            (#[trigger] inf.installed()[i]).addr,
        )
    }
    &&& (r matches Err(LaunchError::Install(a)) ==> table.contains(a))
    &&& (r matches Err(LaunchError::Install(_))) ==> first_stop(ops) is Some && is_launch_trap(
        first_stop(ops)->Some_0,
    )
    &&& (r matches Err(LaunchError::Wait(_))) || (r matches Err(LaunchError::NotTrapped(_)))
        || (r matches Err(LaunchError::Install(_))) ==> inf.is_reaped()
}

/// A traced child process owned by the debugging session.
pub struct Inferior {
    tracee: Tracee,
    last: Status,
    reaped: bool,
    installed: Vec<Breakpoint>,
}

impl Inferior {
    pub closed spec fn pid_spec(&self) -> i32 {
        self.tracee.pid_spec()
    }

    /// Every successful process-control call made on this process.
    pub closed spec fn log(&self) -> Seq<Op> {
        self.tracee.log()
    }

    /// The status reported by the latest wait.
    pub closed spec fn last_status(&self) -> Status {
        self.last
    }

    /// Whether the OS process is gone and reaped.
    pub closed spec fn is_reaped(&self) -> bool {
        self.reaped
    }

    /// Breakpoints written into this process, with the bytes they replaced.
    pub closed spec fn installed(&self) -> Seq<Breakpoint> {
        self.installed@
    }

    pub closed spec fn wf(&self) -> bool {
        &&& self.tracee.pid_spec() > 0
        &&& unique_addrs(self.installed@)
    }

    pub fn pid(&self) -> (r: i32)
        ensures
            r == self.pid_spec(),
    {
        self.tracee.pid()
    }

    pub fn status(&self) -> (r: Status)
        ensures
            r == self.last_status(),
    {
        self.last
    }

    /// Whether the process is stopped and can be resumed.
    pub fn is_stopped(&self) -> (r: bool)
        ensures
            r == (!self.is_reaped() && self.last_status() is Stopped),
    {
        !self.reaped && !self.last.is_terminal()
    }

    /// Index of the breakpoint installed at `addr`, if any.
    fn find_installed(&self, addr: usize) -> (r: Option<usize>)
        ensures
            r is Some ==> r->Some_0 < self.installed@.len() && self.installed@[r->Some_0 as int].addr
                == addr,
            r is None ==> !has_bp(self.installed@, addr),
    {
        let mut i: usize = 0;
        while i < self.installed.len()
            invariant
                i <= self.installed@.len(),
                forall|j: int| 0 <= j < i ==> (#[trigger] self.installed@[j]).addr != addr,
            decreases self.installed@.len() - i,
        {
            if self.installed[i].addr == addr {
                return Some(i);
            }
            i += 1;
        }
        None
    }

    /// Waits for the process to change state and classifies the change; a
    /// stop captures the instruction pointer at that moment. With
    /// `nonblocking`, returns `None` at once when nothing has changed.
    pub fn wait_for(&mut self, nonblocking: bool) -> (r: Result<Option<Status>, ControlError>)
        requires
            old(self).wf(),
        ensures
            final(self).wf(),
            final(self).pid_spec() == old(self).pid_spec(),
            final(self).installed() == old(self).installed(),
            extends(final(self).log(), old(self).log()),
            wait_outcome(final(self).log().skip(old(self).log().len() as int), r),
            !nonblocking ==> !(r matches Ok(None)),
            r matches Ok(Some(st)) ==> {
                &&& final(self).last_status() == st
                &&& final(self).is_reaped() == (old(self).is_reaped() || !(st is Stopped))
                &&& wait_record(final(self).log().skip(old(self).log().len() as int), st)
            },
            !(r matches Ok(Some(_))) ==> final(self).last_status() == old(self).last_status()
                && final(self).is_reaped() == old(self).is_reaped(),
    {
        let ghost pre = self.tracee.log();
        let ev = self.tracee.wait_event(nonblocking);
        proof {
            assert(self.tracee.log().skip(pre.len() as int).len() == self.tracee.log().len() - pre.len());
        }
        match ev {
            Err(e) => Err(e),
            Ok(WaitEvent::Exited(code)) => {
                self.last = Status::Exited(code);
                self.reaped = true;
                assert(self.tracee.log().skip(pre.len() as int) =~= seq![
                    Op::Waited(WaitEvent::Exited(code)),
                ]);
                Ok(Some(self.last))
            },
            Ok(WaitEvent::Signaled(sig)) => {
                self.last = Status::Signaled(sig);
                self.reaped = true;
                assert(self.tracee.log().skip(pre.len() as int) =~= seq![
                    Op::Waited(WaitEvent::Signaled(sig)),
                ]);
                Ok(Some(self.last))
            },
            Ok(WaitEvent::Stopped(sig)) => {
                let ghost mid = self.tracee.log();
                assert(mid.skip(pre.len() as int)[0] == mid[pre.len() as int]);
                match self.tracee.read_regs() {
                    Ok((ip, _frame)) => {
                        self.last = Status::Stopped(sig, ip);
                        let ghost rest = self.tracee.log().skip(pre.len() as int);
                        assert(rest.len() == 2);
                        assert(rest[0] == self.tracee.log()[pre.len() as int]);
                        assert(rest[1] == self.tracee.log()[pre.len() as int + 1]);
                        Ok(Some(self.last))
                    },
                    Err(e) => Err(e),
                }
            },
            Ok(WaitEvent::StillAlive) => {
                assert(self.tracee.log().skip(pre.len() as int)[0] == self.tracee.log()[pre.len() as int]);
                Ok(None)
            },
            Ok(WaitEvent::Other) => {
                assert(self.tracee.log().skip(pre.len() as int)[0] == self.tracee.log()[pre.len() as int]);
                Err(ControlError::Unexpected)
            },
        }
    }

    /// Blocks until the process changes state and classifies the change; a
    /// stop captures the instruction pointer at that moment.
    pub fn wait(&mut self) -> (r: Result<Status, ControlError>)
        requires
            old(self).wf(),
        ensures
            final(self).wf(),
            final(self).pid_spec() == old(self).pid_spec(),
            final(self).installed() == old(self).installed(),
            extends(final(self).log(), old(self).log()),
            blocking_outcome(final(self).log().skip(old(self).log().len() as int), r),
            r is Ok ==> {
                &&& final(self).last_status() == r->Ok_0
                &&& final(self).is_reaped() == (old(self).is_reaped() || !(r->Ok_0 is Stopped))
                &&& wait_record(final(self).log().skip(old(self).log().len() as int), r->Ok_0)
            },
            r is Err ==> final(self).last_status() == old(self).last_status()
                && final(self).is_reaped() == old(self).is_reaped(),
    {
        match self.wait_for(false) {
            Ok(Some(st)) => Ok(st),
            Ok(None) => Err(ControlError::Unexpected),
            Err(e) => Err(e),
        }
    }

    /// Sets the byte at `addr` to `val` by a read-modify-write of its word;
    /// returns the byte that was there.
    pub fn write_byte(&mut self, addr: usize, val: u8) -> (r: Result<u8, ControlError>)
        ensures
            final(self).pid_spec() == old(self).pid_spec(),
            final(self).last_status() == old(self).last_status(),
            final(self).is_reaped() == old(self).is_reaped(),
            final(self).installed() == old(self).installed(),
            r is Ok ==> wrote_byte(old(self).log(), final(self).log(), addr, val, r->Ok_0),
            r is Err ==> r->Err_0 is Os,
            r is Err ==> extends(final(self).log(), old(self).log()) && ({
                let ops = final(self).log().skip(old(self).log().len() as int);
                ops.len() == 0 || (ops.len() == 1 && (ops[0] matches Op::Peek(a, _) && a == word_base(
                    addr,
                )))
            }),
    {
        let ghost pre = self.tracee.log();
        let aligned = align_addr_to_word(addr);
        let offset = addr - aligned;
        let word = match self.tracee.peek(aligned) {
            Ok(w) => w,
            Err(e) => {
                assert(self.tracee.log().skip(pre.len() as int) =~= Seq::<Op>::empty());
                return Err(e);
            },
        };
        let (updated, orig) = patch_word(word, offset, val);
        match self.tracee.poke(aligned, updated) {
            Ok(()) => {
                Ok(orig)
            },
            Err(e) => {
                assert(self.tracee.log().skip(pre.len() as int) =~= seq![Op::Peek(aligned, word)]);
                Err(e)
            },
        }
    }

    /// Writes the trap at `addr` unless this process already has it there,
    /// and remembers the byte it replaced.
    fn install(&mut self, addr: usize) -> (r: Result<(), ControlError>)
        requires
            old(self).wf(),
        ensures
            final(self).wf(),
            final(self).pid_spec() == old(self).pid_spec(),
            final(self).last_status() == old(self).last_status(),
            final(self).is_reaped() == old(self).is_reaped(),
            extends(final(self).log(), old(self).log()),
            only_memory(final(self).log().skip(old(self).log().len() as int)),
            has_bp(old(self).installed(), addr) ==> r is Ok && final(self).log() == old(self).log()
                && final(self).installed() == old(self).installed(),
            !has_bp(old(self).installed(), addr) && r is Ok ==> {
                let bp = final(self).installed().last();
                &&& final(self).installed() == old(self).installed().push(bp)
                &&& bp.addr == addr
                &&& wrote_byte(old(self).log(), final(self).log(), addr, TRAP_OPCODE, bp.orig_byte)
            },
            r is Err ==> final(self).installed() == old(self).installed() && final(self).log().len()
                <= old(self).log().len() + 1,
            r is Err ==> r->Err_0 is Os,
    {
        let ghost pre = self.tracee.log();
        if self.find_installed(addr).is_some() {
            assert(self.tracee.log().skip(pre.len() as int) =~= Seq::<Op>::empty());
            return Ok(());
        }
        let orig = self.write_byte(addr, TRAP_OPCODE)?;
        let ghost post = self.tracee.log();
        assert(post.skip(pre.len() as int) =~= seq![post[pre.len() as int], post[pre.len() as int + 1]]);
        let bp = Breakpoint::new(addr, orig);
        self.installed.push(bp);
        assert forall|i: int, j: int|
            0 <= i < self.installed@.len() && 0 <= j < self.installed@.len() && i != j
            implies #[trigger] self.installed@[i].addr != #[trigger] self.installed@[j].addr by {
            if i < self.installed@.len() - 1 && j < self.installed@.len() - 1 {
                assert(self.installed@[i] == old(self).installed@[i]);
                assert(self.installed@[j] == old(self).installed@[j]);
            } else if i < self.installed@.len() - 1 {
                assert(self.installed@[i] == old(self).installed@[i]);
            } else {
                assert(self.installed@[j] == old(self).installed@[j]);
            }
        }
        Ok(())
    }

    /// Makes sure every breakpoint of `table` is written into this process.
    /// On failure, returns the address that could not be written.
    fn install_all(&mut self, table: &BreakpointTable) -> (r: Result<(), (usize, ControlError)>)
        requires
            old(self).wf(),
        ensures
            final(self).wf(),
            final(self).pid_spec() == old(self).pid_spec(),
            final(self).last_status() == old(self).last_status(),
            final(self).is_reaped() == old(self).is_reaped(),
            extends(final(self).log(), old(self).log()),
            only_memory(final(self).log().skip(old(self).log().len() as int)),
            final(self).installed().len() >= old(self).installed().len(),
            final(self).installed().take(old(self).installed().len() as int) == old(
                self,
            ).installed(),
            forall|i: int|
                old(self).installed().len() <= i < final(self).installed().len() ==> table@.contains(
                    (#[trigger] final(self).installed()[i]).addr,
                ),
            r is Ok ==> forall|a: usize| #[trigger]
                table@.contains(a) ==> has_bp(final(self).installed(), a),
            r is Ok ==> install_ops(
                final(self).log().skip(old(self).log().len() as int),
                final(self).installed().skip(old(self).installed().len() as int),
            ),
            r is Err ==> table@.contains(r->Err_0.0),
            r is Err ==> r->Err_0.1 is Os,
            r is Err ==> {
                let ops = final(self).log().skip(old(self).log().len() as int);
                let bps = final(self).installed().skip(old(self).installed().len() as int);
                &&& install_ops(ops.take(2 * bps.len() as int), bps)
                &&& ops.len() <= 2 * bps.len() + 1
            },
    {
        let ghost pre = self.tracee.log();
        let ghost pre_bps = self.installed@;
        let n = table.len();
        let mut i: usize = 0;
        while i < n
            invariant
                n == table@.len(),
                i <= n,
                self.wf(),
                self.tracee.pid_spec() == old(self).pid_spec(),
                self.last == old(self).last_status(),
                self.reaped == old(self).is_reaped(),
                pre == old(self).log(),
                pre_bps == old(self).installed(),
                extends(self.tracee.log(), pre),
                only_memory(self.tracee.log().skip(pre.len() as int)),
                self.installed@.len() >= pre_bps.len(),
                self.installed@.take(pre_bps.len() as int) == pre_bps,
                forall|k: int|
                    pre_bps.len() <= k < self.installed@.len() ==> table@.contains(
                        (#[trigger] self.installed@[k]).addr,
                    ),
                forall|j: int| 0 <= j < i ==> has_bp(self.installed@, #[trigger] table@[j]),
                install_ops(self.tracee.log().skip(pre.len() as int), self.installed@.skip(pre_bps.len() as int)),
            decreases n - i,
        {
            let addr = table.get(i);
            let ghost before = self.tracee.log();
            let ghost bps_before = self.installed@;
            let res = self.install(addr);
            let ghost after = self.tracee.log();
            proof {
                let a0 = before.skip(pre.len() as int);
                let b0 = bps_before.skip(pre_bps.len() as int);
                if res is Ok && !has_bp(bps_before, addr) {
                    let bl = before.len() as int;
                    let bp = self.installed@.last();
                    assert(wrote_pair(after[bl], after[bl + 1], bp));
                    lemma_install_ops_push(a0, b0, after[bl], after[bl + 1], bp);
                    assert(after.skip(pre.len() as int) =~= a0.push(after[bl]).push(after[bl + 1]));
                    assert(self.installed@.skip(pre_bps.len() as int) =~= b0.push(bp));
                } else if res is Err {
                    let ops = after.skip(pre.len() as int);
                    assert(self.installed@ == bps_before);
                    assert(ops.take(2 * b0.len() as int) =~= a0);
                    assert(ops.len() <= a0.len() + 1);
                }
            }
            assert(only_memory(after.skip(pre.len() as int))) by {
                assert forall|k: int| 0 <= k < after.skip(pre.len() as int).len() implies
                    (#[trigger] after.skip(pre.len() as int)[k] is Peek || after.skip(pre.len() as int)[k] is Poke) by {
                    let m = pre.len() + k;
                    if m < before.len() {
                        assert(after[m] == after.take(before.len() as int)[m]);
                        assert(before.skip(pre.len() as int)[k] == before[m]);
                    } else {
                        assert(after.skip(before.len() as int)[m - before.len()] == after[m]);
                    }
                }
            }
            assert(self.installed@.take(pre_bps.len() as int) =~= pre_bps) by {
                assert forall|k: int| 0 <= k < pre_bps.len() implies self.installed@[k] == pre_bps[k] by {
                    assert(bps_before[k] == bps_before.take(pre_bps.len() as int)[k]);
                    if self.installed@ != bps_before {
                        assert(self.installed@ == bps_before.push(self.installed@.last()));
                    }
                }
            }
            assert forall|k: int| pre_bps.len() <= k < self.installed@.len() implies table@.contains(
                (#[trigger] self.installed@[k]).addr) by {
                if k < bps_before.len() {
                    if self.installed@ != bps_before {
                        assert(self.installed@ == bps_before.push(self.installed@.last()));
                    }
                    assert(self.installed@[k] == bps_before[k]);
                } else {
                    assert(self.installed@[k].addr == addr);
                    assert(table@[i as int] == addr);
                }
            }
            match res {
                Ok(()) => {},
                Err(e) => {
                    assert(table@[i as int] == addr);
                    return Err((addr, e));
                },
            }
            assert forall|j: int| 0 <= j <= i implies has_bp(self.installed@, #[trigger] table@[j]) by {
                if j < i {
                    let w = choose|q: int| 0 <= q < bps_before.len() && (#[trigger] bps_before[q]).addr == table@[j];
                    if self.installed@ != bps_before {
                        assert(self.installed@ == bps_before.push(self.installed@.last()));
                    }
                    assert(self.installed@[w] == bps_before[w]);
                } else {
                    if !has_bp(bps_before, addr) {
                        let q = self.installed@.len() - 1;
                        assert(self.installed@[q].addr == addr);
                    }
                }
            }
            i += 1;
        }
        assert forall|a: usize| #[trigger] table@.contains(a) implies has_bp(self.installed@, a) by {
            let j = choose|j: int| 0 <= j < table@.len() && table@[j] == a;
            assert(has_bp(self.installed@, table@[j]));
        }
        Ok(())
    }

    /// A handle on the traced child `pid`, before anything was done with it.
    pub fn attach(pid: i32) -> (r: Inferior)
        requires
            pid > 0,
        ensures
            r.wf(),
            r.pid_spec() == pid,
            r.log() == Seq::<Op>::empty(),
            r.installed() == Seq::<Breakpoint>::empty(),
            !r.is_reaped(),
    {
        Inferior {
            tracee: Tracee::new(pid),
            last: Status::Exited(0),
            reaped: false,
            installed: Vec::new(),
        }
    }

    /// Kills and reaps the child after a failed launch; `err` is returned if
    /// that worked, else `NotReaped`.
    fn abandon(&mut self, err: LaunchError) -> (r: LaunchError)
        requires
            old(self).wf(),
            !(err is NotReaped),
        ensures
            final(self).log().len() == old(self).log().len() || final(self).log()[old(
                self,
            ).log().len() as int] == Op::Kill,
            final(self).wf(),
            final(self).pid_spec() == old(self).pid_spec(),
            final(self).installed() == old(self).installed(),
            extends(final(self).log(), old(self).log()),
            r == err ==> final(self).is_reaped(),
            r != err ==> r is NotReaped,
    {
        let ghost pre = self.tracee.log();
        let res = self.kill_and_reap();
        proof {
            let ops = self.tracee.log();
            if ops.len() > pre.len() {
                assert(ops.skip(pre.len() as int)[0] == ops[pre.len() as int]);
            }
        }
        match res {
            Ok(()) => err,
            Err(e) => LaunchError::NotReaped(e),
        }
    }

    /// Completes the launch of a freshly spawned child: one wait for its
    /// first stop, which must be the trap of a freshly traced program, then
    /// the trap written at every address of `table` before any of its own
    /// instructions run. On failure the child is killed and reaped.
    pub fn launch(&mut self, table: &BreakpointTable) -> (r: Result<(), LaunchError>)
        requires
            old(self).wf(),
            old(self).log().len() == 0,
            old(self).installed().len() == 0,
            !old(self).is_reaped(),
        ensures
            final(self).wf(),
            final(self).pid_spec() == old(self).pid_spec(),
            launched(*final(self), table@, r),
    {
        let first = self.wait();
        let ghost w1 = self.tracee.log();
        proof {
            if let Ok(st) = first {
                if let Status::Stopped(_, _) = st {
                    assert(w1[1] == w1.skip(0)[1]);
                }
                assert(w1.skip(0) =~= w1);
                assert(first_stop(w1) == Some(st));
            } else {
                assert(w1.skip(0) =~= w1);
                assert(first_stop(w1) is None);
            }
        }
        match check_first_stop(first) {
            Ok(()) => {},
            Err(e) => {
                let r = self.abandon(e);
                proof {
                    let ops = self.tracee.log();
                    if w1.len() >= 1 {
                        assert(ops[0] == w1[0]);
                    }
                    if w1.len() >= 2 {
                        assert(ops[1] == w1[1]);
                    }
                    if w1.len() == 1 && ops.len() >= 2 {
                        assert(ops[1] == Op::Kill);
                    }
                }
                return Err(r);
            },
        }
        match self.install_all(table) {
            Ok(()) => {
                let ghost ops = self.tracee.log();
                assert(ops.take(2) =~= w1);
                assert(ops.skip(2) =~= ops.skip(w1.len() as int));
                assert(self.installed@.skip(0) =~= self.installed@);
                assert(ops[0] == w1[0] && ops[1] == w1[1]);
                assert(first_stop(ops) == first_stop(w1));
                assert(first_stop(ops) == Some(self.last));
                assert(wait_record(ops.take(2), self.last));
                assert(install_ops(ops.skip(2), self.installed@));
                Ok(())
            },
            Err((addr, _)) => {
                let ghost ops1 = self.tracee.log();
                let r = self.abandon(LaunchError::Install(addr));
                proof {
                    let ops = self.tracee.log();
                    assert(ops[0] == w1[0] && ops[1] == w1[1]);
                    assert(first_stop(ops) == first_stop(w1));
                }
                Err(r)
            },
        }
    }

    /// Takes over a child that was spawned with trace-me requested; see
    /// [`Inferior::launch`] for what is done with it.
    pub fn new(pid: i32, table: &BreakpointTable) -> (r: Result<Inferior, LaunchError>)
        requires
            pid > 0,
        ensures
            r is Ok ==> {
                let inf = r->Ok_0;
                let ops = inf.log();
                &&& inf.wf()
                &&& inf.pid_spec() == pid
                &&& !inf.is_reaped()
                &&& is_launch_trap(inf.last_status())
                &&& first_stop(ops) == Some(inf.last_status())
                &&& wait_record(ops.take(2), inf.last_status())
                &&& install_ops(ops.skip(2), inf.installed())
                &&& forall|a: usize| #[trigger] table@.contains(a) ==> has_bp(inf.installed(), a)
                &&& forall|i: int| 0 <= i < inf.installed().len() ==> table@.contains(
                    (#[trigger] inf.installed()[i]).addr,
                )
            },
            r is Ok ==> launched(r->Ok_0, table@, Ok(())),
            r is Err ==> exists|d: Inferior| #[trigger] d.pid_spec() == pid && launched(d, table@, Err(r->Err_0)),
    {
        let mut inf = Inferior::attach(pid);
        match inf.launch(table) {
            Ok(()) => Ok(inf),
            Err(e) => {
                assert(inf.pid_spec() == pid && launched(inf, table@, Err(e)));
                Err(e)
            },
        }
    }

    /// Kills the process and reaps it with one wait so that no zombie is
    /// left. On a process that is already reaped it does nothing and succeeds.
    pub fn kill_and_reap(&mut self) -> (r: Result<(), ControlError>)
        requires
            old(self).wf(),
        ensures
            final(self).wf(),
            final(self).pid_spec() == old(self).pid_spec(),
            final(self).installed() == old(self).installed(),
            extends(final(self).log(), old(self).log()),
            old(self).is_reaped() ==> r is Ok && final(self).log() == old(self).log()
                && final(self).last_status() == old(self).last_status() && final(self).is_reaped(),
            !old(self).is_reaped() ==> {
                let ops = final(self).log().skip(old(self).log().len() as int);
                ||| ops.len() == 0 && (r matches Err(ControlError::Os(_)))
                ||| ops[0] == Op::Kill && exists|w: Result<Status, ControlError>|
                    blocking_outcome(ops.skip(1), w) && r == reap_result(w)
            },
            !old(self).is_reaped() && r is Ok ==> {
                let ops = final(self).log().skip(old(self).log().len() as int);
                &&& final(self).is_reaped()
                &&& !(final(self).last_status() is Stopped)
                &&& ops.len() == 2
                &&& ops[0] == Op::Kill
                &&& wait_record(ops.skip(1), final(self).last_status())
            },
    {
        if self.reaped {
            return Ok(());
        }
        let ghost pre = self.tracee.log();
        self.tracee.kill()?;
        let ghost killed = self.tracee.log();
        let w = self.wait();
        let ghost post = self.tracee.log();
        proof {
            assert(post.skip(pre.len() as int)[0] == post[pre.len() as int]);
            assert(post[pre.len() as int] == killed[pre.len() as int]);
            assert(post.skip(pre.len() as int).skip(1) =~= post.skip(killed.len() as int));
        }
        let res = match w {
            Ok(st) => if st.is_terminal() {
                Ok(())
            } else {
                Err(ControlError::Unexpected)
            },
            Err(e) => Err(e),
        };
        proof {
            let ops = post.skip(pre.len() as int);
            assert(res == reap_result(w));
            assert(blocking_outcome(ops.skip(1), w));
        }
        res
    }

    /// Passes the breakpoint at `a` whose replaced byte is `orig`: puts the
    /// byte back, rewinds the instruction pointer to `a`, steps that one
    /// instruction and, if the process is still there, writes the trap
    /// again. Returns the status if the process ended during the step.
    fn pass_breakpoint(&mut self, a: usize, orig: u8) -> (r: Result<Option<Status>, ControlError>)
        requires
            old(self).wf(),
            !old(self).is_reaped(),
        ensures
            final(self).wf(),
            final(self).pid_spec() == old(self).pid_spec(),
            final(self).installed() == old(self).installed(),
            extends(final(self).log(), old(self).log()),
            r is Ok ==> {
                let ops = final(self).log().skip(old(self).log().len() as int);
                match r->Ok_0 {
                    None => passed_ops(ops, a, orig, true) && !final(self).is_reaped()
                        && final(self).last_status() is Stopped,
                    Some(st) => passed_ops(ops, a, orig, false) && !(st is Stopped)
                        && final(self).last_status() == st && final(self).is_reaped() && wait_record(
                        ops.skip(4),
                        st,
                    ),
                }
            },
            r is Err ==> r->Err_0 is Os || final(self).log().last() == Op::Waited(WaitEvent::Other),
    {
        let ghost s0 = self.tracee.log();
        self.write_byte(a, orig)?;
        let ghost s1 = self.tracee.log();
        self.tracee.set_ip(a)?;
        self.tracee.step()?;
        let ghost s2 = self.tracee.log();
        proof {
            if let Op::Peek(_, w) = s1[s0.len() as int] {
                lemma_patched_lanes(w, word_offset(a), orig);
            }
        }
        let st = self.wait()?;
        let ghost s3 = self.tracee.log();
        proof {
            lemma_wait_record_no_cont(s3.skip(s2.len() as int), st);
            let ops = s3.skip(s0.len() as int);
            assert forall|m: int| 0 <= m < ops.len() implies #[trigger] ops[m] != Op::Cont by {
                if m >= s2.len() - s0.len() {
                    assert(ops[m] == s3.skip(s2.len() as int)[m - (s2.len() - s0.len())]);
                }
            }
        }
        if st.is_terminal() {
            proof {
                assert(s3.skip(s0.len() as int).skip(4) =~= s3.skip(s2.len() as int));
            }
            return Ok(Some(st));
        }
        self.write_byte(a, TRAP_OPCODE)?;
        proof {
            let s4 = self.tracee.log();
            if let Op::Peek(_, w) = s4[s3.len() as int] {
                lemma_patched_lanes(w, word_offset(a), TRAP_OPCODE);
            }
            let ops = s4.skip(s0.len() as int);
            assert(ops.last() == s4[s3.len() as int + 1]);
            assert forall|m: int| 0 <= m < ops.len() implies #[trigger] ops[m] != Op::Cont by {
                if m < s3.len() - s0.len() {
                    assert(ops[m] == s3.skip(s0.len() as int)[m]);
                }
            }
        }
        Ok(None)
    }

    /// Resumes a stopped process and waits for its next status. Breakpoints of
    /// `table` missing from this process are written first. When the process
    /// sits just past one of its breakpoints, that breakpoint is passed
    /// before resuming: the replaced byte is put back, the instruction
    /// pointer rewound to it, the instruction stepped, and the trap written
    /// again. Without this the same trap would be hit again at once.
    pub fn cont(&mut self, table: &BreakpointTable) -> (r: Result<Status, ControlError>)
        requires
            old(self).wf(),
            !old(self).is_reaped(),
            old(self).last_status() is Stopped,
        ensures
            final(self).wf(),
            final(self).pid_spec() == old(self).pid_spec(),
            extends(final(self).log(), old(self).log()),
            r is Ok ==> {
                let st = r->Ok_0;
                let ops = final(self).log().skip(old(self).log().len() as int);
                &&& final(self).last_status() == st
                &&& final(self).is_reaped() == !(st is Stopped)
                &&& forall|a: usize| #[trigger] table@.contains(a) ==> has_bp(final(self).installed(), a)
                &&& resumed(ops, st) || !(st is Stopped)
                &&& exists|k: int| 0 <= k <= ops.len() && wait_record(#[trigger] ops.skip(k), st)
                &&& install_ops(
                    ops.take(2 * (final(self).installed().len() - old(self).installed().len())),
                    final(self).installed().skip(old(self).installed().len() as int),
                )
                &&& forall|j: int|
                    0 <= j < old(self).installed().len() && trapped_at(
                        old(self).last_status(),
                        (#[trigger] old(self).installed()[j]).addr,
                    ) ==> steps_over(ops, old(self).installed()[j].addr, old(self).installed()[j].orig_byte)
            },
            final(self).installed().len() >= old(self).installed().len(),
            final(self).installed().take(old(self).installed().len() as int) == old(self).installed(),
            forall|i: int|
                old(self).installed().len() <= i < final(self).installed().len() ==> table@.contains(
                    (#[trigger] final(self).installed()[i]).addr,
                ),
            r is Err ==> r->Err_0 is Os || final(self).log().last() == Op::Waited(WaitEvent::Other),
    {
        let ghost pre = self.tracee.log();
        let ghost pre_bps = self.installed@;
        match self.install_all(table) {
            Ok(()) => {},
            Err((_, e)) => return Err(e),
        }
        let ghost s1 = self.tracee.log();
        let ghost new_bps = self.installed@.skip(pre_bps.len() as int);
        assert(s1.skip(pre.len() as int).len() == 2 * new_bps.len());
        let ghost mut passed: Option<(usize, u8)> = None;
        if let Status::Stopped(sig, ip) = self.last {
            if sig == SIGTRAP && ip >= 1 {
                if let Some(i) = self.find_installed(ip - 1) {
                    let bp = self.installed[i];
                    proof {
                        assert forall|j: int| 0 <= j < pre_bps.len() && #[trigger] pre_bps[j].addr == bp.addr
                            implies pre_bps[j] == bp by {
                            assert(self.installed@[j] == self.installed@.take(pre_bps.len() as int)[j]);
                        }
                        passed = Some((bp.addr, bp.orig_byte));
                    }
                    match self.pass_breakpoint(bp.addr, bp.orig_byte) {
                        Ok(None) => {},
                        Ok(Some(st)) => {
                            proof {
                                let ops = self.tracee.log().skip(pre.len() as int);
                                let i0 = s1.len() - pre.len() + 1;
                                let seg = self.tracee.log().skip(s1.len() as int);
                                assert(ops[i0] == seg[1]);
                                assert(ops[i0 + 1] == seg[2]);
                                assert(ops[i0 + 2] == seg[3]);
                                assert forall|m: int| 0 <= m < ops.len() implies #[trigger] ops[m] != Op::Cont by {
                                    if m < s1.len() - pre.len() {
                                        assert(s1.skip(pre.len() as int)[m] == ops[m]);
                                    } else {
                                        assert(seg[m - (s1.len() - pre.len())] == ops[m]);
                                    }
                                }
                                assert(steps_over(ops, bp.addr, bp.orig_byte));
                                let k = s1.len() - pre.len() + 4;
                                assert(ops.skip(k) =~= seg.skip(4));
                                assert(ops.take(2 * new_bps.len() as int) =~= s1.skip(pre.len() as int));
                            }
                            return Ok(st);
                        },
                        Err(e) => return Err(e),
                    }
                }
            }
        }
        let ghost s2 = self.tracee.log();
        match self.tracee.cont() {
            Ok(()) => {},
            Err(e) => return Err(e),
        }
        let ghost s3 = self.tracee.log();
        let st = match self.wait() {
            Ok(st) => st,
            Err(e) => return Err(e),
        };
        proof {
            let ops = self.tracee.log().skip(pre.len() as int);
            let kc = s2.len() - pre.len();
            assert(ops[kc] == Op::Cont);
            assert(ops.skip(kc + 1) =~= self.tracee.log().skip(s3.len() as int));
            assert(resumed(ops, st));
            assert(ops.take(2 * new_bps.len() as int) =~= s1.skip(pre.len() as int));
            lemma_wait_record_no_cont(ops.skip(kc + 1), st);
            if let Some((a, b)) = passed {
                let i0 = s1.len() - pre.len() + 1;
                let seg = s2.skip(s1.len() as int);
                assert(ops[i0] == seg[1]);
                assert(ops[i0 + 1] == seg[2]);
                assert(ops[i0 + 2] == seg[3]);
                assert forall|m: int| 0 <= m < i0 implies #[trigger] ops[m] != Op::Cont by {
                    if m < s1.len() - pre.len() {
                        assert(s1.skip(pre.len() as int)[m] == ops[m]);
                    } else {
                        assert(seg[0] == ops[m]);
                    }
                }
                assert forall|c: int| i0 + 2 < c < ops.len() && #[trigger] ops[c] == Op::Cont
                    implies exists|q: int| i0 + 2 < q < c && writes_lane(#[trigger] ops[q], a, TRAP_OPCODE) by {
                    if c < kc {
                        assert(seg[c - (s1.len() - pre.len())] == ops[c]);
                    } else if c > kc {
                        assert(ops.skip(kc + 1)[c - kc - 1] == ops[c]);
                    }
                    assert(c == kc);
                    assert(ops[kc - 1] == seg.last());
                    assert(writes_lane(ops[kc - 1], a, TRAP_OPCODE));
                }
                assert(steps_over(ops, a, b));
            }
        }
        Ok(st)
    }

    /// Walks the stack by frame pointers from the current stop, naming each
    /// frame with `resolve` (function name, source location), until the entry
    /// function is reached.
    pub fn backtrace<F: Fn(usize) -> Option<(String, String)>>(&mut self, resolve: F) -> (r: Result<
        Vec<(String, String)>,
        BacktraceError,
    >)
        requires
            old(self).wf(),
            forall|a: usize| resolve.requires((a,)),
        ensures
            final(self).wf(),
            final(self).pid_spec() == old(self).pid_spec(),
            final(self).installed() == old(self).installed(),
            final(self).last_status() == old(self).last_status(),
            final(self).is_reaped() == old(self).is_reaped(),
            extends(final(self).log(), old(self).log()),
            backtrace_outcome(final(self).log().skip(old(self).log().len() as int), resolve, r),
    {
        let ghost pre = self.tracee.log();
        let (mut ip, mut base) = match self.tracee.read_regs() {
            Ok(regs) => regs,
            Err(e) => return Err(BacktraceError::Control(e)),
        };
        let mut frames: Vec<(String, String)> = Vec::new();
        loop
            invariant
                self.wf(),
                self.tracee.pid_spec() == old(self).pid_spec(),
                self.installed@ == old(self).installed(),
                self.last == old(self).last_status(),
                self.reaped == old(self).is_reaped(),
                pre == old(self).log(),
                extends(self.tracee.log(), pre),
                frames@.len() <= MAX_FRAMES,
                walk_ops(self.tracee.log().skip(pre.len() as int), frames@.len() as int + 1),
                ip == frame_ip(self.tracee.log().skip(pre.len() as int), frames@.len() as int),
                base == frame_base(self.tracee.log().skip(pre.len() as int), frames@.len() as int),
                forall|a: usize| resolve.requires((a,)),
                forall|i: int| 0 <= i < frames@.len() ==> resolve.ensures(
                    (frame_ip(self.tracee.log().skip(pre.len() as int), i),),
                    Some(#[trigger] frames@[i]),
                ),
                forall|i: int| 0 <= i < frames@.len() ==> (#[trigger] frames@[i]).0@ != entry_function(),
            decreases MAX_FRAMES - frames@.len(),
        {
            let ghost cur = self.tracee.log().skip(pre.len() as int);
            proof {
                assert(resolved_walk(cur, resolve, frames@.len() as int)) by {
                    assert(frames@.len() == frames@.len() as int);
                }
            }
            if frames.len() >= MAX_FRAMES {
                return Err(BacktraceError::Truncated);
            }
            let frame = match resolve(ip) {
                Some(f) => f,
                None => return Err(BacktraceError::Unresolved(ip)),
            };
            let at_entry = str_eq(frame.0.as_str(), "main");
            proof {
                reveal_strlit("main");
                assert("main"@ =~= entry_function());
            }
            let ghost before = self.tracee.log().skip(pre.len() as int);
            let ghost k = frames@.len();
            frames.push(frame);
            if at_entry {
                proof {
                    assert(self.tracee.log().skip(pre.len() as int) == before);
                }
                return Ok(frames);
            }
            proof {
                assert(cur.take(2 * (k + 1) - 1) =~= cur);
                assert forall|i: int| 0 <= i < k + 1 implies resolve.ensures(
                    (frame_ip(cur, i),),
                    Some(#[trigger] frames@[i]),
                ) && frames@[i].0@ != entry_function() by {}
                assert(frames@.len() == k + 1);
                assert(resolved_walk(cur, resolve, frames@.len() as int));
            }
            let ret_slot = match base.checked_add(8) {
                Some(a) => a,
                None => return Err(BacktraceError::BadFrame(base)),
            };
            let ret = match self.tracee.peek(ret_slot) {
                Ok(w) => w,
                Err(e) => {
                    proof {
                        let ops = self.tracee.log().skip(pre.len() as int);
                        assert(ops =~= cur);
                        assert(walk_ops(ops.take(2 * (k as int + 1) - 1), k as int + 1));
                    }
                    return Err(BacktraceError::Control(e));
                },
            };
            let saved = match self.tracee.peek(base) {
                Ok(w) => w,
                Err(e) => {
                    proof {
                        let ops = self.tracee.log().skip(pre.len() as int);
                        assert(ops.take(2 * (k + 1) - 1) =~= cur);
                        assert(walk_ops(ops.take(2 * (k as int + 1) - 1), k as int + 1));
                    }
                    return Err(BacktraceError::Control(e));
                },
            };
            proof {
                let now = self.tracee.log().skip(pre.len() as int);
                let n = k as int + 1;
                assert(now.len() == before.len() + 2);
                assert forall|j: int| 0 <= j < before.len() implies now[j] == before[j] by {}
                assert(now[2 * n - 1] == Op::Peek(ret_slot, ret));
                assert(now[2 * n] == Op::Peek(base, saved));
                assert(frame_base(now, k as int) == frame_base(before, k as int));
                assert forall|i: int| 1 <= i < n + 1 implies {
                    &&& (#[trigger] now[2 * i - 1]) is Peek
                    &&& peek_addr(now[2 * i - 1]) == frame_base(now, i - 1) + 8
                    &&& now[2 * i] is Peek
                    &&& peek_addr(now[2 * i]) == frame_base(now, i - 1)
                } by {
                    if i < n {
                        assert(before[2 * i - 1] == now[2 * i - 1]);
                        assert(before[2 * i] == now[2 * i]);
                        if i - 1 > 0 {
                            assert(before[2 * (i - 1)] == now[2 * (i - 1)]);
                        } else {
                            assert(before[0] == now[0]);
                        }
                    }
                }
                assert forall|i: int| 0 <= i < n implies frame_ip(now, i) == frame_ip(before, i) by {
                    if i == 0 {
                        assert(before[0] == now[0]);
                    } else {
                        assert(before[2 * i - 1] == now[2 * i - 1]);
                    }
                }
            }
            ip = #[verifier::truncate] (ret as usize);
            base = #[verifier::truncate] (saved as usize);
        }
    }
}

} // verus!
