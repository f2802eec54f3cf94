use serialcli::command::{select_port_choice, Command, CommandKind};
use serialcli::communicator::{ChannelError, Communicator};
use serialcli::shell::Shell;
use serialcli::text::{parse_index, split_bytes, trim_bytes};

#[test]
fn new_channel_starts_clean() {
    let c = Communicator::new(String::from("/dev/ttyUSB0"), 9600);
    assert_eq!(c.get_name(), String::from("/dev/ttyUSB0"));
    assert_eq!(c.baudrate, 9600);
    assert!(c.avail_script.is_empty());
    assert_eq!(c.probe_cursor, 0);
    assert!(c.inbound.is_empty());
    assert!(c.outbound.is_empty());
}

#[test]
fn each_write_appends_one_whole_message() {
    let mut c = Communicator::new(String::from("mock"), 9600);
    let n = c.write(b"3 1 3");
    assert_eq!(n, 5);
    c.write(b"0 2");
    assert_eq!(c.outbound, vec![b"3 1 3".to_vec(), b"0 2".to_vec()]);
}

#[test]
fn serialized_dispatches_leave_whole_payloads() {
    // Two built-in commands against one guarded channel: whichever order the
    // guard admits them in, the channel holds two whole payloads, with the
    // bytes of one never interleaved into the other.
    let table = vec![
        Command::new(b"write-digital".to_vec(), CommandKind::WriteDigital),
        Command::new(b"write-analog".to_vec(), CommandKind::WriteAnalog),
    ];
    let mut shell = Shell::new(table, Communicator::new(String::from("mock"), 9600));
    shell.parse_external(b"write-digital 1 3").unwrap();
    shell.parse_external(b"write-analog 7 9").unwrap();
    assert_eq!(
        shell.communicator.outbound,
        vec![b"3 1 3".to_vec(), b"2 7 9".to_vec()]
    );
}

#[test]
fn replace_swaps_the_whole_handle() {
    let mut c = Communicator::new(String::from("/dev/ttyUSB0"), 9600);
    c.avail_script = vec![5, 5];
    c.inbound = b"stale".to_vec();
    c.write(b"old message");
    c.msg_available();
    c.change_port(String::from("/dev/ttyUSB1"), 115200);
    // Nothing of the old handle survives: the next operation sees the new
    // connection cleanly, never a mixture.
    assert_eq!(c.get_name(), String::from("/dev/ttyUSB1"));
    assert_eq!(c.baudrate, 115200);
    assert!(c.avail_script.is_empty());
    assert_eq!(c.probe_cursor, 0);
    assert!(c.inbound.is_empty());
    assert!(c.outbound.is_empty());
    assert_eq!(c.get_output(), Ok(String::new()));
}

#[test]
fn channel_error_kinds_are_distinct() {
    assert_ne!(ChannelError::IoFailure, ChannelError::DecodeFailure);
    let e = ChannelError::IoFailure;
    assert!(matches!(e, ChannelError::IoFailure));
}

#[test]
fn port_choice_accepts_numbers_in_range() {
    assert_eq!(select_port_choice(b"1", 3), Some(0));
    assert_eq!(select_port_choice(b"3", 3), Some(2));
    assert_eq!(select_port_choice(b" 2 \n", 3), Some(1));
}

#[test]
fn port_choice_rejects_bad_input() {
    assert_eq!(select_port_choice(b"0", 3), None);
    assert_eq!(select_port_choice(b"4", 3), None);
    assert_eq!(select_port_choice(b"abc", 3), None);
    assert_eq!(select_port_choice(b"", 3), None);
    assert_eq!(select_port_choice(b"99999999999999999999999999", 3), None);
}

#[test]
fn parse_index_reads_trimmed_decimals() {
    assert_eq!(parse_index(b" 42\n"), Some(42));
    assert_eq!(parse_index(b"007"), Some(7));
    assert_eq!(parse_index(b"1x"), None);
    assert_eq!(parse_index(b"  "), None);
}

#[test]
fn parse_index_handles_the_largest_value() {
    assert_eq!(parse_index(b"18446744073709551615"), Some(usize::MAX));
    assert_eq!(parse_index(b"18446744073709551616"), None);
}

#[test]
fn trim_strips_ascii_whitespace_only_at_the_edges() {
    assert_eq!(trim_bytes(b" \t a b \r\n"), b"a b".to_vec());
    assert_eq!(trim_bytes(b""), Vec::<u8>::new());
    assert_eq!(trim_bytes(b"   "), Vec::<u8>::new());
}

#[test]
fn split_keeps_empty_pieces() {
    assert_eq!(
        split_bytes(b"a  b"),
        vec![b"a".to_vec(), Vec::<u8>::new(), b"b".to_vec()]
    );
    assert_eq!(split_bytes(b""), vec![Vec::<u8>::new()]);
    assert_eq!(split_bytes(b"one"), vec![b"one".to_vec()]);
}
