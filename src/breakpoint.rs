//! Breakpoints and the session's table of them.
use vstd::prelude::*;

verus! {

/// A breakpoint installed in one process: its address and the instruction
/// byte that the trap replaced there.
#[derive(Clone, Copy, Debug, PartialEq, Eq, Structural)]
pub struct Breakpoint {
    pub addr: usize,
    pub orig_byte: u8,
}

impl Breakpoint {
    pub fn new(addr: usize, orig_byte: u8) -> (r: Breakpoint)
        ensures
            r.addr == addr,
            r.orig_byte == orig_byte,
    {
        Breakpoint { addr, orig_byte }
    }
}

/// Addresses at which the user asked for a breakpoint, in the order they were
/// set, each once. It outlives every process and is applied to each anew.
pub struct BreakpointTable {
    addrs: Vec<usize>,
}

impl View for BreakpointTable {
    type V = Seq<usize>;

    closed spec fn view(&self) -> Seq<usize> {
        self.addrs@
    }
}

impl BreakpointTable {
    /// No address occurs twice.
    pub open spec fn wf(&self) -> bool {
        self@.no_duplicates()
    }

    pub fn new() -> (r: BreakpointTable)
        ensures
            r.wf(),
            r@ == Seq::<usize>::empty(),
    {
        BreakpointTable { addrs: Vec::new() }
    }

    pub fn len(&self) -> (r: usize)
        ensures
            r == self@.len(),
    {
        self.addrs.len()
    }

    /// The `i`-th address set.
    pub fn get(&self, i: usize) -> (r: usize)
        requires
            i < self@.len(),
        ensures
            r == self@[i as int],
    {
        self.addrs[i]
    }

    pub fn contains(&self, addr: usize) -> (r: bool)
        ensures
            r == self@.contains(addr),
    {
        let mut i: usize = 0;
        while i < self.addrs.len()
            invariant
                i <= self.addrs@.len(),
                forall|j: int| 0 <= j < i ==> self.addrs@[j] != addr,
            decreases self.addrs@.len() - i,
        {
            if self.addrs[i] == addr {
                return true;
            }
            i += 1;
        }
        false
    }

    /// Adds `addr` unless present; returns whether it was added.
    pub fn insert(&mut self, addr: usize) -> (r: bool)
        requires
            old(self).wf(),
        ensures
            final(self).wf(),
            r == !old(self)@.contains(addr),
            r ==> final(self)@ == old(self)@.push(addr),
            !r ==> final(self)@ == old(self)@,
    {
        if self.contains(addr) {
            false
        } else {
            self.addrs.push(addr);
            true
        }
    }
}

} // verus!
