//! Process-control core of a small native debugger, with the smaller
//! tools that share its helpers.
//!
//! - `patch`, `tracee`, `inferior`, `session`: byte patching of breakpoints,
//!   the ptrace capability, one traced process (launch hand-off, wait,
//!   breakpoint-aware resume, kill and reap, frame-pointer backtrace), and
//!   the session that owns the breakpoint table and at most one process.
//! - `command`, `number`, `breakpoint`, `status`: debugger commands,
//!   address parsing, the breakpoint table, and process status.
//! - `grid`: the longest-common-subsequence table of a line diff.
//! - `hangman`, `vec_ops`, `text`, `upstream`: a word-guessing game,
//!   vector utilities, string helpers, and load-balancer bookkeeping.

pub mod breakpoint;
pub mod command;
pub mod grid;
pub mod hangman;
pub mod inferior;
pub mod number;
pub mod patch;
pub mod session;
pub mod status;
pub mod text;
pub mod tracee;
pub mod upstream;
pub mod vec_ops;
