//! Serialization of commands to their wire form and back.

use gcode_stream::parser::FileLoader;
use gcode_stream::Command;

#[test]
fn unit_markers_serialize() {
    assert_eq!(Command::G20.to_string(), "G20");
    assert_eq!(Command::G21.to_string(), "G21");
}

#[test]
fn integer_tags_serialize() {
    assert_eq!(Command::N(10).to_string(), "N10");
    assert_eq!(Command::M(-3).to_string(), "M-3");
    assert_eq!(Command::J(0).to_string(), "J0");
    assert_eq!(Command::K(7).to_string(), "K7");
}

#[test]
fn coordinates_serialize_without_padding() {
    assert_eq!(Command::X(10000).to_string(), "X10");
    assert_eq!(Command::X(12500).to_string(), "X12.5");
    assert_eq!(Command::X(12345).to_string(), "X12.345");
    assert_eq!(Command::Y(-500).to_string(), "Y-0.5");
    assert_eq!(Command::X(0).to_string(), "X0");
    assert_eq!(Command::X(1).to_string(), "X0.001");
    assert_eq!(Command::X(10).to_string(), "X0.01");
    assert_eq!(Command::X(100).to_string(), "X0.1");
    assert_eq!(Command::Y(-1000000).to_string(), "Y-1000");
}

#[test]
fn wire_line_appends_the_terminator() {
    assert_eq!(Command::X(1000).wire_line(), b"X1\n".to_vec());
    assert_eq!(Command::G21.wire_line(), b"G21\n".to_vec());
}

#[test]
fn serialized_coordinates_reparse_to_the_same_value() {
    for v in [0i64, 1, -1, 999, 12500, -12500, 1000000, -2500250] {
        let line = format!("G1 {}\n", Command::X(v).to_string());
        let mut loader = FileLoader::new();
        loader.parse(line.as_bytes()).expect("wire form reparses");
        assert_eq!(loader.into_commands(), vec![Command::X(v)]);
    }
}

#[test]
fn serialized_tags_reparse_to_the_same_value() {
    for v in [0i64, 42, -42, 9007199254740993] {
        let line = format!("G1 {}\n", Command::N(v).to_string());
        let mut loader = FileLoader::new();
        loader.parse(line.as_bytes()).expect("wire form reparses");
        assert_eq!(loader.into_commands(), vec![Command::N(v)]);
    }
}
