use serialcli::command::{Command, CommandKind, CommandTable};
use serialcli::communicator::Communicator;
use serialcli::shell::{dispatch_decide, DispatchAction, Shell};

fn builtin_table() -> Vec<Command> {
    vec![
        Command::new(b"write-digital".to_vec(), CommandKind::WriteDigital),
        Command::new(b"write-analog".to_vec(), CommandKind::WriteAnalog),
        Command::new(b"read-digital".to_vec(), CommandKind::ReadDigital),
        Command::new(b"read-analog".to_vec(), CommandKind::ReadAnalog),
    ]
}

fn fresh_shell() -> Shell {
    Shell::new(builtin_table(), Communicator::new(String::from("mock"), 9600))
}

#[test]
fn write_digital_line_formats_payload() {
    let mut shell = fresh_shell();
    let r = shell.parse_external(b"write-digital 1 3");
    assert!(r.is_ok());
    assert_eq!(shell.communicator.outbound, vec![b"3 1 3".to_vec()]);
    assert!(shell.output_vec.is_empty());
}

#[test]
fn write_analog_line_formats_payload() {
    let mut shell = fresh_shell();
    let r = shell.parse_external(b"write-analog 7 250");
    assert!(r.is_ok());
    assert_eq!(shell.communicator.outbound, vec![b"2 7 250".to_vec()]);
}

#[test]
fn read_analog_line_writes_waits_and_reads() {
    let mut shell = fresh_shell();
    shell.communicator.avail_script = vec![4, 4];
    shell.communicator.inbound = b"ok".to_vec();
    let r = shell.parse_external(b"read-analog 2");
    assert!(r.is_ok());
    assert_eq!(shell.communicator.outbound, vec![b"0 2".to_vec()]);
    assert!(shell.communicator.inbound.is_empty());
    assert_eq!(shell.output_vec, vec![String::from("ok")]);
}

#[test]
fn read_digital_line_writes_waits_and_reads() {
    let mut shell = fresh_shell();
    shell.communicator.avail_script = vec![0, 3, 3];
    shell.communicator.inbound = b"high".to_vec();
    let r = shell.parse_external(b"read-digital 5");
    assert!(r.is_ok());
    assert_eq!(shell.communicator.outbound, vec![b"1 5".to_vec()]);
    assert_eq!(shell.output_vec, vec![String::from("high")]);
}

#[test]
fn unmatched_line_is_written_verbatim() {
    let mut shell = fresh_shell();
    let r = shell.parse_external(b"foo bar baz");
    assert!(r.is_ok());
    assert_eq!(shell.communicator.outbound, vec![b"foo bar baz".to_vec()]);
    assert!(shell.output_vec.is_empty());
}

#[test]
fn unmatched_line_is_trimmed_before_passthrough() {
    let mut shell = fresh_shell();
    let r = shell.parse_external(b"  hello device \n");
    assert!(r.is_ok());
    assert_eq!(shell.communicator.outbound, vec![b"hello device".to_vec()]);
}

#[test]
fn empty_line_passes_through_empty() {
    let mut shell = fresh_shell();
    let r = shell.parse_external(b"");
    assert!(r.is_ok());
    assert_eq!(shell.communicator.outbound, vec![Vec::<u8>::new()]);
}

#[test]
fn matched_line_never_forwards_raw_line() {
    let mut shell = fresh_shell();
    let r = shell.parse_external(b"write-digital 1 3");
    assert!(r.is_ok());
    // The framed payload, not the raw line, reaches the channel.
    assert_eq!(shell.communicator.outbound.len(), 1);
    assert_ne!(shell.communicator.outbound[0], b"write-digital 1 3".to_vec());
}

#[test]
fn command_without_arguments_keeps_code_prefix() {
    let mut shell = fresh_shell();
    let r = shell.parse_external(b"write-digital");
    assert!(r.is_ok());
    assert_eq!(shell.communicator.outbound, vec![b"3 ".to_vec()]);
}

#[test]
fn trailing_newline_on_last_argument_is_trimmed() {
    let mut shell = fresh_shell();
    let r = shell.parse_external(b"write-digital 1 3\n");
    assert!(r.is_ok());
    assert_eq!(shell.communicator.outbound, vec![b"3 1 3".to_vec()]);
}

#[test]
fn lookup_is_case_sensitive() {
    let mut shell = fresh_shell();
    let r = shell.parse_external(b"Write-Digital 1 3");
    assert!(r.is_ok());
    assert_eq!(shell.communicator.outbound, vec![b"Write-Digital 1 3".to_vec()]);
}

#[test]
fn duplicate_name_is_shadowed_first_match_wins() {
    let mut table = CommandTable::new();
    table.register(Command::new(b"dup".to_vec(), CommandKind::WriteDigital));
    table.register(Command::new(b"dup".to_vec(), CommandKind::ReadAnalog));
    assert_eq!(table.resolve(b"dup"), Some(0));
    match dispatch_decide(&table, b"dup 9") {
        DispatchAction::Builtin { kind, payload } => {
            assert_eq!(kind, CommandKind::WriteDigital);
            assert_eq!(payload, b"3 9".to_vec());
        }
        DispatchAction::Passthrough { .. } => panic!("registered name must resolve"),
    }
}

#[test]
fn resolve_reports_missing_names() {
    let table = CommandTable { entries: builtin_table() };
    assert_eq!(table.resolve(b"read-analog"), Some(3));
    assert_eq!(table.resolve(b"absent"), None);
    assert_eq!(table.resolve(b""), None);
}

#[test]
fn decide_passthrough_carries_trimmed_line() {
    let table = CommandTable { entries: builtin_table() };
    match dispatch_decide(&table, b" raw bytes ") {
        DispatchAction::Passthrough { payload } => assert_eq!(payload, b"raw bytes".to_vec()),
        DispatchAction::Builtin { .. } => panic!("unregistered name must pass through"),
    }
}

#[test]
fn doubled_space_yields_empty_argument_token() {
    // "write-digital  1" splits into an empty token and "1"; joining adds a
    // space for each, and trimming strips the leading one the empty token left.
    let mut shell = fresh_shell();
    shell.parse_external(b"write-digital  1").unwrap();
    assert_eq!(shell.communicator.outbound, vec![b"3 1".to_vec()]);
}

#[test]
fn leading_whitespace_on_first_token_is_trimmed_for_lookup() {
    let mut shell = fresh_shell();
    shell.parse_external(b"\twrite-digital 4").unwrap();
    assert_eq!(shell.communicator.outbound, vec![b"3 4".to_vec()]);
}

#[test]
fn exec_write_command_returns_no_reply() {
    let cmd = Command::new(b"write-digital".to_vec(), CommandKind::WriteDigital);
    let mut comm = Communicator::new(String::from("mock"), 9600);
    let argv = vec![b"1".to_vec(), b"3".to_vec()];
    let r = cmd.exec(&argv, &mut comm);
    assert_eq!(r, Ok(None));
    assert_eq!(comm.outbound, vec![b"3 1 3".to_vec()]);
}

#[test]
fn exec_read_command_returns_decoded_reply() {
    let cmd = Command::new(b"read-analog".to_vec(), CommandKind::ReadAnalog);
    let mut comm = Communicator::new(String::from("mock"), 9600);
    comm.avail_script = vec![2, 2];
    comm.inbound = b"512".to_vec();
    let argv = vec![b"2".to_vec()];
    let r = cmd.exec(&argv, &mut comm);
    assert_eq!(r, Ok(Some(String::from("512"))));
    assert_eq!(comm.outbound, vec![b"0 2".to_vec()]);
}
