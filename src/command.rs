//! Debugger commands read from tokenised input, and what a breakpoint
//! argument names.
use vstd::prelude::*;
use crate::number::{parse_address, parse_unsigned, parse_unsigned_from, strip_hex_prefix};
use crate::text::str_eq;

verus! {

/// A command of the interactive debugger.
#[derive(Debug, Clone)]
pub enum DebuggerCommand {
    Quit,
    Continue,
    BackTrace,
    BreakPoint(Vec<String>),
    Run(Vec<String>),
}

/// `args` are the tokens after the first, in order.
pub open spec fn rest_of(args: Seq<String>, tokens: Seq<&str>) -> bool {
    &&& args.len() + 1 == tokens.len()
    &&& forall|i: int| 0 <= i < args.len() ==> (#[trigger] args[i])@ == tokens[i + 1]@
}

pub open spec fn is_quit(w: Seq<char>) -> bool {
    w == "q"@ || w == "quit"@
}

pub open spec fn is_continue(w: Seq<char>) -> bool {
    w == "c"@ || w == "cont"@ || w == "continue"@
}

pub open spec fn is_run(w: Seq<char>) -> bool {
    w == "r"@ || w == "run"@
}

pub open spec fn is_backtrace(w: Seq<char>) -> bool {
    w == "bt"@ || w == "back"@ || w == "backtrace"@
}

pub open spec fn is_break(w: Seq<char>) -> bool {
    w == "b"@ || w == "break"@
}

fn rest_tokens(tokens: &Vec<&str>) -> (r: Vec<String>)
    requires
        tokens@.len() > 0,
    ensures
        rest_of(r@, tokens@),
{
    let mut out: Vec<String> = Vec::new();
    let mut i: usize = 1;
    while i < tokens.len()
        invariant
            1 <= i <= tokens@.len(),
            out@.len() + 1 == i,
            forall|j: int| 0 <= j < out@.len() ==> (#[trigger] out@[j])@ == tokens@[j + 1]@,
        decreases tokens@.len() - i,
    {
        let t: &str = tokens[i];
        out.push(t.to_owned());
        i += 1;
    }
    out
}

impl DebuggerCommand {
    /// Reads a command from its tokens: the first names the command, the
    /// others are the arguments of `run` and `break`.
    pub fn from_tokens(tokens: &Vec<&str>) -> (r: Option<DebuggerCommand>)
        requires
            tokens@.len() > 0,
        ensures
            ({
                let w = tokens@[0]@;
                &&& (r matches Some(DebuggerCommand::Quit)) <==> is_quit(w)
                &&& (r matches Some(DebuggerCommand::Continue)) <==> is_continue(w)
                &&& (r matches Some(DebuggerCommand::BackTrace)) <==> is_backtrace(w)
                &&& (r matches Some(DebuggerCommand::Run(_))) <==> is_run(w)
                &&& (r matches Some(DebuggerCommand::BreakPoint(_))) <==> is_break(w)
                &&& r is None <==> !(is_quit(w) || is_continue(w) || is_backtrace(w) || is_run(w)
                    || is_break(w))
                &&& r matches Some(DebuggerCommand::Run(args)) ==> rest_of(args@, tokens@)
                &&& r matches Some(DebuggerCommand::BreakPoint(args)) ==> rest_of(args@, tokens@)
            }),
    {
        proof {
            reveal_strlit("q");
            reveal_strlit("quit");
            reveal_strlit("c");
            reveal_strlit("cont");
            reveal_strlit("continue");
            reveal_strlit("r");
            reveal_strlit("run");
            reveal_strlit("bt");
            reveal_strlit("back");
            reveal_strlit("backtrace");
            reveal_strlit("b");
            reveal_strlit("break");
            assert("q"@.len() == 1 && "q"@[0] == 'q');
            assert("quit"@.len() == 4 && "quit"@[0] == 'q');
            assert("c"@.len() == 1 && "c"@[0] == 'c');
            assert("cont"@.len() == 4 && "cont"@[0] == 'c');
            assert("continue"@.len() == 8 && "continue"@[0] == 'c');
            assert("r"@.len() == 1 && "r"@[0] == 'r');
            assert("run"@.len() == 3 && "run"@[0] == 'r');
            assert("bt"@.len() == 2 && "bt"@[0] == 'b');
            assert("back"@.len() == 4 && "back"@[0] == 'b');
            assert("backtrace"@.len() == 9 && "backtrace"@[0] == 'b');
            assert("b"@.len() == 1 && "b"@[0] == 'b');
            assert("break"@.len() == 5 && "break"@[0] == 'b');
        }
        let w: &str = tokens[0];
        if str_eq(w, "q") || str_eq(w, "quit") {
            Some(DebuggerCommand::Quit)
        } else if str_eq(w, "c") || str_eq(w, "cont") || str_eq(w, "continue") {
            Some(DebuggerCommand::Continue)
        } else if str_eq(w, "r") || str_eq(w, "run") {
            Some(DebuggerCommand::Run(rest_tokens(tokens)))
        } else if str_eq(w, "bt") || str_eq(w, "back") || str_eq(w, "backtrace") {
            Some(DebuggerCommand::BackTrace)
        } else if str_eq(w, "b") || str_eq(w, "break") {
            Some(DebuggerCommand::BreakPoint(rest_tokens(tokens)))
        } else {
            None
        }
    }
}

/// What the argument of a `break` command names.
#[derive(Debug, Clone)]
pub enum BreakTarget {
    /// `*` followed by a hexadecimal address.
    Address(usize),
    /// A decimal source line number.
    Line(usize),
    /// Anything else is taken as a function name.
    Function(String),
    /// `*` followed by something that is no address.
    Invalid,
}

/// `t` is what the breakpoint argument `arg` names.
pub open spec fn names_target(arg: Seq<char>, t: BreakTarget) -> bool {
    &&& (arg.len() > 0 && arg[0] == '*' ==> match parse_unsigned(strip_hex_prefix(arg.skip(1)), 16) {
        Some(v) => t matches BreakTarget::Address(a) && a == v,
        None => t is Invalid,
    })
    &&& (!(arg.len() > 0 && arg[0] == '*') ==> match parse_unsigned(arg, 10) {
        Some(v) => t matches BreakTarget::Line(n) && n == v,
        None => t matches BreakTarget::Function(name) && name@ == arg,
    })
}

/// Classifies a breakpoint argument, trying in order a raw address, a line
/// number and a function name.
pub fn break_target(arg: &str) -> (r: BreakTarget)
    ensures
        names_target(arg@, r),
{
    let n = arg.unicode_len();
    if n > 0 && arg.get_char(0) == '*' {
        let rest = arg.substring_char(1, n);
        assert(rest@ =~= arg@.skip(1));
        match parse_address(rest) {
            Some(a) => BreakTarget::Address(a),
            None => BreakTarget::Invalid,
        }
    } else {
        assert(arg@.skip(0) =~= arg@);
        match parse_unsigned_from(arg, 0, 10) {
            Some(line) => BreakTarget::Line(line),
            None => BreakTarget::Function(arg.to_owned()),
        }
    }
}

/// The target of a `break` command, which takes exactly one argument.
pub fn break_args(args: &Vec<String>) -> (r: Option<BreakTarget>)
    ensures
        args@.len() != 1 ==> r is None,
        args@.len() == 1 ==> r is Some && names_target(args@[0]@, r->Some_0),
{
    if args.len() != 1 {
        return None;
    }
    Some(break_target(args[0].as_str()))
}

} // verus!
