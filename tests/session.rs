use deet::breakpoint::{Breakpoint, BreakpointTable};
use deet::session::{Session, SessionError};
use deet::inferior::check_first_stop;
use deet::status::{ControlError, LaunchError, Status};

#[test]
fn terminal_statuses() {
    assert!(Status::Exited(0).is_terminal());
    assert!(Status::Signaled(9).is_terminal());
    assert!(!Status::Stopped(5, 0x1111).is_terminal());
}

#[test]
fn table_keeps_each_address_once_in_order() {
    let mut t = BreakpointTable::new();
    assert!(t.insert(0x1111));
    assert!(t.insert(0x2222));
    assert!(!t.insert(0x1111));
    assert_eq!(t.len(), 2);
    assert_eq!(t.get(0), 0x1111);
    assert_eq!(t.get(1), 0x2222);
    assert!(t.contains(0x2222));
    assert!(!t.contains(0x3333));
    let b = Breakpoint::new(0x1111, 0x55);
    assert_eq!(b.addr, 0x1111);
    assert_eq!(b.orig_byte, 0x55);
}

#[test]
fn session_without_process() {
    let mut s = Session::new();
    assert!(!s.has_inferior());
    assert_eq!(s.pid(), None);
    assert_eq!(s.resume(), Err(SessionError::NoProcess));
    assert!(s.backtrace(|_| None).is_none());
    assert_eq!(s.stop_current(), Ok(()));
    assert_eq!(s.stop_current(), Ok(()));
    assert_eq!(s.add_breakpoint(0x1111), 0);
    assert_eq!(s.add_breakpoint(0x2222), 1);
    assert_eq!(s.add_breakpoint(0x1111), 2);
    assert_eq!(s.breakpoints().len(), 2);
}

#[test]
fn first_stop_decides_launch() {
    assert_eq!(check_first_stop(Ok(Status::Stopped(5, 0x401000))), Ok(()));
    assert_eq!(
        check_first_stop(Ok(Status::Stopped(11, 0x401000))),
        Err(LaunchError::NotTrapped(Status::Stopped(11, 0x401000)))
    );
    assert_eq!(
        check_first_stop(Ok(Status::Exited(0))),
        Err(LaunchError::NotTrapped(Status::Exited(0)))
    );
    assert_eq!(
        check_first_stop(Err(ControlError::Os(3))),
        Err(LaunchError::Wait(ControlError::Os(3)))
    );
}
