use deet::command::{break_args, break_target, BreakTarget, DebuggerCommand};
use deet::number::parse_address;

#[test]
fn parses_command_words() {
    assert!(matches!(DebuggerCommand::from_tokens(&vec!["q"]), Some(DebuggerCommand::Quit)));
    assert!(matches!(DebuggerCommand::from_tokens(&vec!["quit"]), Some(DebuggerCommand::Quit)));
    assert!(matches!(DebuggerCommand::from_tokens(&vec!["c"]), Some(DebuggerCommand::Continue)));
    assert!(matches!(DebuggerCommand::from_tokens(&vec!["cont"]), Some(DebuggerCommand::Continue)));
    assert!(matches!(DebuggerCommand::from_tokens(&vec!["continue"]), Some(DebuggerCommand::Continue)));
    assert!(matches!(DebuggerCommand::from_tokens(&vec!["bt"]), Some(DebuggerCommand::BackTrace)));
    assert!(matches!(DebuggerCommand::from_tokens(&vec!["back"]), Some(DebuggerCommand::BackTrace)));
    assert!(matches!(DebuggerCommand::from_tokens(&vec!["backtrace"]), Some(DebuggerCommand::BackTrace)));
    assert!(DebuggerCommand::from_tokens(&vec!["jump"]).is_none());
    assert!(DebuggerCommand::from_tokens(&vec!["Quit"]).is_none());
}

#[test]
fn run_and_break_keep_their_arguments() {
    match DebuggerCommand::from_tokens(&vec!["run", "a", "bc"]) {
        Some(DebuggerCommand::Run(args)) => assert_eq!(args, vec!["a".to_string(), "bc".to_string()]),
        _ => panic!("expected run"),
    }
    match DebuggerCommand::from_tokens(&vec!["r"]) {
        Some(DebuggerCommand::Run(args)) => assert!(args.is_empty()),
        _ => panic!("expected run"),
    }
    match DebuggerCommand::from_tokens(&vec!["b", "*0x401b3d"]) {
        Some(DebuggerCommand::BreakPoint(args)) => assert_eq!(args, vec!["*0x401b3d".to_string()]),
        _ => panic!("expected break"),
    }
}

#[test]
fn parses_addresses() {
    assert_eq!(parse_address("0x401b3d"), Some(0x401b3d));
    assert_eq!(parse_address("0X1F"), Some(0x1f));
    assert_eq!(parse_address("ff"), Some(0xff));
    assert_eq!(parse_address("+10"), Some(0x10));
    assert_eq!(parse_address("0x"), None);
    assert_eq!(parse_address(""), None);
    assert_eq!(parse_address("0xg1"), None);
    assert_eq!(parse_address("ffffffffffffffff"), Some(usize::MAX));
    assert_eq!(parse_address("10000000000000000"), None);
}

#[test]
fn classifies_break_targets() {
    assert!(matches!(break_target("*0x1111"), BreakTarget::Address(0x1111)));
    assert!(matches!(break_target("*zz"), BreakTarget::Invalid));
    assert!(matches!(break_target("15"), BreakTarget::Line(15)));
    match break_target("main") {
        BreakTarget::Function(name) => assert_eq!(name, "main"),
        other => panic!("unexpected {:?}", other),
    }
}

#[test]
fn break_takes_exactly_one_argument() {
    assert!(break_args(&vec![]).is_none());
    assert!(break_args(&vec!["a".to_string(), "b".to_string()]).is_none());
    assert!(matches!(break_args(&vec!["*0x1111".to_string()]), Some(BreakTarget::Address(0x1111))));
    assert!(matches!(break_args(&vec!["42".to_string()]), Some(BreakTarget::Line(42))));
}
