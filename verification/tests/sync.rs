use serialcli::communicator::{ChannelError, Communicator};
use serialcli::shell::Shell;

fn mock(script: Vec<u32>, inbound: Vec<u8>) -> Communicator {
    let mut c = Communicator::new(String::from("mock"), 9600);
    c.avail_script = script;
    c.inbound = inbound;
    c
}

#[test]
fn completion_declared_after_second_stable_count() {
    // Scripted probe counts 0,0,5,5,12,12: the baseline is 0, the counts
    // grow through 5 to 12, and completion is declared at the second 12 —
    // not at the first 5, while the count was still growing.
    let mut c = mock(vec![0, 0, 5, 5, 12, 12], Vec::new());
    c.wait_for_response();
    assert_eq!(c.probe_cursor, 6);
}

#[test]
fn completion_waits_out_strict_growth() {
    // While counts strictly grow the loop keeps waiting; it completes only
    // once the count holds at its final value.
    let mut c = mock(vec![1, 2, 3, 5, 5], Vec::new());
    c.wait_for_response();
    assert_eq!(c.probe_cursor, 5);
}

#[test]
fn already_stable_nonzero_count_completes_at_once() {
    let mut c = mock(vec![7, 7], Vec::new());
    c.wait_for_response();
    // Baseline 7, then the settled count 7 did not grow: done after one
    // gate/count cycle.
    assert_eq!(c.probe_cursor, 2);
}

#[test]
fn msg_available_consumes_one_probe() {
    let mut c = mock(vec![0, 3], Vec::new());
    assert!(!c.msg_available());
    assert_eq!(c.probe_cursor, 1);
    assert!(c.msg_available());
    assert_eq!(c.probe_cursor, 2);
}

#[test]
fn get_output_decodes_buffered_text() {
    let mut c = mock(Vec::new(), b"hello".to_vec());
    assert_eq!(c.get_output(), Ok(String::from("hello")));
    assert!(c.inbound.is_empty());
}

#[test]
fn get_output_on_empty_buffer_is_empty_not_error() {
    let mut c = mock(Vec::new(), Vec::new());
    assert_eq!(c.get_output(), Ok(String::new()));
}

#[test]
fn get_output_reports_decode_failure() {
    let mut c = mock(Vec::new(), vec![0xff, 0xfe]);
    assert_eq!(c.get_output(), Err(ChannelError::DecodeFailure));
    // The bytes were still drained; the failure is reported, not retried.
    assert!(c.inbound.is_empty());
}

#[test]
fn get_output_drains_at_most_one_read() {
    let mut c = mock(Vec::new(), vec![97u8; 1500]);
    let first = c.get_output().unwrap();
    assert_eq!(first.len(), 1000);
    assert_eq!(c.inbound.len(), 500);
    let second = c.get_output().unwrap();
    assert_eq!(second.len(), 500);
}

#[test]
fn listener_step_idles_when_nothing_buffered() {
    let mut shell = Shell::new(Vec::new(), mock(vec![0, 0], Vec::new()));
    assert_eq!(shell.listener_step(), Ok(false));
    assert_eq!(shell.communicator.probe_cursor, 1);
    assert!(shell.output_vec.is_empty());
}

#[test]
fn listener_step_publishes_one_decoded_chunk() {
    let mut shell = Shell::new(Vec::new(), mock(vec![5, 5, 5], b"pong".to_vec()));
    assert_eq!(shell.listener_step(), Ok(true));
    assert_eq!(shell.output_vec, vec![String::from("pong")]);
    assert!(shell.communicator.inbound.is_empty());
    // Nothing was written to the device.
    assert!(shell.communicator.outbound.is_empty());
}

#[test]
fn listener_step_reports_decode_failure_and_publishes_nothing() {
    let mut shell = Shell::new(Vec::new(), mock(vec![2, 2, 2], vec![0xc0]));
    assert_eq!(shell.listener_step(), Err(ChannelError::DecodeFailure));
    assert!(shell.output_vec.is_empty());
}

#[test]
fn output_sink_is_append_only_in_arrival_order() {
    let mut shell = Shell::new(Vec::new(), mock(vec![1, 1, 1, 1, 1, 1], Vec::new()));
    shell.communicator.inbound = b"first".to_vec();
    assert_eq!(shell.listener_step(), Ok(true));
    shell.communicator.inbound = b"second".to_vec();
    assert_eq!(shell.listener_step(), Ok(true));
    assert_eq!(shell.output_vec, vec![String::from("first"), String::from("second")]);
}
