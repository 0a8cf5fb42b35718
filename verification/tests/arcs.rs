//! Arc expansion: segment counts, literal endpoints, purity.

use gcode_stream::arc::{arc_inter, Direction};
use gcode_stream::parser::FileLoader;
use gcode_stream::Command;

#[test]
fn half_circle_clockwise_has_31_interpolated_pairs() {
    // start (20, 0), center (10, 0), end (0, 0): radius 10 units, sweep
    // half a turn, arc length about 31.4 units.
    let cmds = arc_inter(20000, 0, 0, 0, -10000, 0, Direction::CW);
    assert_eq!(cmds.len(), 2 * 31 + 2);
    assert_eq!(cmds[0], Command::X(20000));
    assert_eq!(cmds[1], Command::Y(0));
    assert_eq!(cmds[cmds.len() - 2], Command::X(0));
    assert_eq!(cmds[cmds.len() - 1], Command::Y(0));
}

#[test]
fn half_circle_counter_clockwise_has_31_interpolated_pairs() {
    let cmds = arc_inter(20000, 0, 0, 0, -10000, 0, Direction::CCW);
    assert_eq!(cmds.len(), 2 * 31 + 2);
    assert_eq!(cmds[cmds.len() - 2], Command::X(0));
    assert_eq!(cmds[cmds.len() - 1], Command::Y(0));
}

#[test]
fn arc_shorter_than_one_unit_emits_only_the_literal_end_pair() {
    // radius a tenth of a unit: the quarter turn is far below one unit
    // of arc length, so only the closing pair appears.
    let cmds = arc_inter(100, 0, 0, 100, -100, 0, Direction::CCW);
    assert_eq!(cmds, vec![Command::X(0), Command::Y(100)]);
}

#[test]
fn rotational_sense_follows_the_direction() {
    let cw = arc_inter(20000, 0, 0, 0, -10000, 0, Direction::CW);
    let ccw = arc_inter(20000, 0, 0, 0, -10000, 0, Direction::CCW);
    // mid-arc the clockwise path dips below the axis while the
    // counter-clockwise path rises above it
    match (cw[31], ccw[31]) {
        (Command::Y(a), Command::Y(b)) => {
            assert!(a < 0);
            assert!(b > 0);
        },
        _ => panic!("expected a pair of Y commands"),
    }
}

#[test]
fn expansion_is_pure() {
    let a = arc_inter(5000, 0, 0, 0, 5000, 0, Direction::CW);
    let b = arc_inter(5000, 0, 0, 0, 5000, 0, Direction::CW);
    assert_eq!(a, b);
}

#[test]
fn parsed_arc_ends_exactly_at_the_commanded_endpoint() {
    // start (5, 0) set by a linear move, then a clockwise arc to (0, 0)
    // around the center (10, 0).
    let mut loader = FileLoader::new();
    loader
        .parse("G1 X5 Y0\nG2 X0 Y0 I5 J0\n".as_bytes())
        .expect("parse succeeds");
    let cmds = loader.into_commands();
    assert!(cmds.len() >= 4);
    assert_eq!(cmds[cmds.len() - 2], Command::X(0));
    assert_eq!(cmds[cmds.len() - 1], Command::Y(0));
}

#[test]
fn arc_fields_default_to_zero() {
    // no I/J: the center is the start point itself, radius zero, so only
    // the literal end pair is emitted.
    let mut loader = FileLoader::new();
    loader.parse("G3 X2 Y3\n".as_bytes()).expect("parse succeeds");
    assert_eq!(
        loader.into_commands(),
        vec![Command::X(2000), Command::Y(3000)]
    );
}

#[test]
fn arc_updates_the_position_to_its_literal_endpoint() {
    // the zero-length follow-up arc starts where the first arc ended.
    let mut loader = FileLoader::new();
    loader
        .parse("G2 X4 Y0 I2 J0\nG2 X4 Y0 I1 J0\n".as_bytes())
        .expect("parse succeeds");
    let cmds = loader.into_commands();
    assert_eq!(cmds[cmds.len() - 2], Command::X(4000));
    assert_eq!(cmds[cmds.len() - 1], Command::Y(0));
}
