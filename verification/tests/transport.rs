//! The one-command-in-flight handshake against fake channels.

use gcode_stream::session::{LineAssembler, StreamError, TransportSession};
use gcode_stream::Command;

#[test]
fn prompt_acknowledgments_give_n_alternating_round_trips() {
    let commands = vec![Command::X(1000), Command::G21, Command::N(5)];
    let n = commands.len();
    let mut session = TransportSession::new(commands);
    let mut writes = 0usize;
    let mut reads = 0usize;
    // fake channel: replies with an acknowledging line after every write
    while session.can_send() {
        let line = session.begin_send();
        assert!(!line.is_empty());
        writes += 1;
        let acked = session.on_line(b"OK\n");
        assert!(acked);
        reads += 1;
        // strict alternation: at this point the round trip is complete
        assert_eq!(writes, reads);
    }
    assert_eq!(writes, n);
    assert_eq!(reads, n);
    assert!(session.finished());
}

#[test]
fn the_wire_line_of_each_command_is_sent() {
    let mut session = TransportSession::new(vec![Command::X(1000), Command::G20]);
    assert_eq!(session.begin_send(), b"X1\n".to_vec());
    assert!(session.on_line(b"OK\n"));
    assert_eq!(session.begin_send(), b"G20\n".to_vec());
}

#[test]
fn a_channel_that_never_replies_raises_the_timeout() {
    let mut session = TransportSession::new(vec![Command::G21]);
    let _ = session.begin_send();
    // fake channel: no line ever arrives, the read times out
    let e = session.on_timeout();
    assert_eq!(e, StreamError::AcknowledgmentTimeout);
    assert!(!session.can_send());
    assert!(!session.finished());
}

#[test]
fn non_matching_lines_keep_the_session_waiting() {
    let mut session = TransportSession::new(vec![Command::G21]);
    let _ = session.begin_send();
    assert!(!session.on_line(b"busy\n"));
    assert!(!session.on_line(b"ko\n"));
    assert!(session.on_line(b"all OK here\n"));
    assert!(session.finished());
}

#[test]
fn acknowledgment_marker_is_a_case_sensitive_substring() {
    let mut session = TransportSession::new(vec![Command::G21, Command::G20]);
    let _ = session.begin_send();
    assert!(!session.on_line(b"ok\n"));
    assert!(!session.on_line(b"O K\n"));
    assert!(!session.on_line(b"KO\n"));
    assert!(session.on_line(b"OK"));
    let _ = session.begin_send();
    assert!(session.on_line(b"xxOKyy\n"));
}

#[test]
fn line_assembler_completes_lines_at_the_terminator() {
    let mut assembler = LineAssembler::new();
    assert_eq!(assembler.push_byte(b'O'), None);
    assert_eq!(assembler.push_byte(b'K'), None);
    assert_eq!(assembler.push_byte(b'\n'), Some(b"OK\n".to_vec()));
    assert_eq!(assembler.push_byte(b'a'), None);
    assert_eq!(assembler.push_byte(b'\n'), Some(b"a\n".to_vec()));
}
