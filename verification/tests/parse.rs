//! Parsing program text into command sequences.

use gcode_stream::parser::{FileLoader, ParseError};
use gcode_stream::Command;

fn parse_ok(text: &str) -> Vec<Command> {
    let mut loader = FileLoader::new();
    loader.parse(text.as_bytes()).expect("parse should succeed");
    loader.into_commands()
}

fn parse_err(text: &str) -> ParseError {
    let mut loader = FileLoader::new();
    loader.parse(text.as_bytes()).expect_err("parse should fail")
}

#[test]
fn two_linear_moves() {
    let cmds = parse_ok("G1 X10 Y0\nG1 X10 Y10\n");
    assert_eq!(
        cmds,
        vec![
            Command::X(10000),
            Command::Y(0),
            Command::X(10000),
            Command::Y(10000),
        ]
    );
}

#[test]
fn empty_program_is_empty_sequence() {
    assert_eq!(parse_ok(""), vec![]);
    assert_eq!(parse_ok("\n\n\n"), vec![]);
}

#[test]
fn integer_tags_pass_through_verbatim() {
    let cmds = parse_ok("G1 N10 M3 J7 K-9\n");
    assert_eq!(
        cmds,
        vec![
            Command::N(10),
            Command::M(3),
            Command::J(7),
            Command::K(-9),
        ]
    );
}

#[test]
fn unit_mode_markers() {
    assert_eq!(parse_ok("G20\nG21\n"), vec![Command::G20, Command::G21]);
}

#[test]
fn decimal_coordinates_are_exact_thousandths() {
    let cmds = parse_ok("G0 X-0.5 Y1.25\nG1 X0.001\n");
    assert_eq!(
        cmds,
        vec![Command::X(-500), Command::Y(1250), Command::X(1)]
    );
}

#[test]
fn unrecognized_codes_and_prefixes_drop_the_line() {
    assert_eq!(parse_ok("G4 X1\nT5 X2\nX1 G1\nG99\n"), vec![]);
}

#[test]
fn unknown_field_letters_are_ignored() {
    let cmds = parse_ok("G1 X1 Q5 Y2\n");
    assert_eq!(cmds, vec![Command::X(1000), Command::Y(2000)]);
}

#[test]
fn carriage_returns_are_stripped() {
    assert_eq!(parse_ok("G21\r\nG20\r\n"), vec![Command::G21, Command::G20]);
}

#[test]
fn bad_number_aborts_the_parse() {
    assert_eq!(parse_err("G1 Xabc\n"), ParseError::BadNumber);
    assert_eq!(parse_err("G\n"), ParseError::BadNumber);
    assert_eq!(parse_err("G1x\n"), ParseError::BadNumber);
    assert_eq!(parse_err("G1 X1.2345\n"), ParseError::BadNumber);
    assert_eq!(parse_err("G1 X99999999999999999999\n"), ParseError::BadNumber);
}

#[test]
fn empty_word_aborts_the_parse() {
    assert_eq!(parse_err("G1  X1\n"), ParseError::EmptyWord);
    assert_eq!(parse_err(" X1\n"), ParseError::EmptyWord);
}

#[test]
fn failed_parse_leaves_no_partial_result() {
    let mut loader = FileLoader::new();
    loader.parse("G21\n".as_bytes()).expect("first parse succeeds");
    loader
        .parse("G1 X1 Y2\nG1 Xbad\n".as_bytes())
        .expect_err("second parse fails");
    assert_eq!(loader.into_commands(), vec![Command::G21]);
}

#[test]
fn next_hands_out_each_command_once_in_order() {
    let mut loader = FileLoader::new();
    loader.parse("G1 X1 Y2\n".as_bytes()).expect("parse succeeds");
    assert_eq!(loader.next(), Some(Command::X(1000)));
    assert_eq!(loader.next(), Some(Command::Y(2000)));
    assert_eq!(loader.next(), None);
    assert_eq!(loader.next(), None);
}
