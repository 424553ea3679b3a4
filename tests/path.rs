use svg_metrics::coord::{Coord, SCALE};
use svg_metrics::path::{Path, PathError};

fn units(v: f64) -> Coord {
    (v * SCALE as f64) as Coord
}

#[test]
#[should_panic]
fn it_panic_when_having_invalid_svg_path_command() {
    let path = Path::new("M 0 0 W 10 10 20 20".to_string());

    if let Err(_) = path {
        panic!("Invalid path command");
    }
}

#[test]
#[should_panic]
fn path_it_panic_when_having_invalid_svg_path_command() {
    let path = Path::new("M 0 0 W 10 10 20 20".to_string());

    if let Err(_) = path {
        panic!("Invalid path command");
    }
}

#[test]
fn it_parses_element_to_path() {
    let path = Path::new("M 0 0 L 10 10 20 20".to_string()).unwrap();

    assert_eq!(path.commands().len(), 2);
}

#[test]
fn it_parses_parses_attribute() {
    let path = Path::new("M 0 0 L 10 10 20 20".to_string()).unwrap();

    assert_eq!(path.commands().len(), 2);

    assert_eq!(path.commands()[0].command, 'M');
    assert_eq!(path.commands()[0].args.len(), 2);
    assert_eq!(path.commands()[0].args[0], units(0.0));
    assert_eq!(path.commands()[0].args[1], units(0.0));

    assert_eq!(path.commands()[1].command, 'L');
    assert_eq!(path.commands()[1].args.len(), 4);
    assert_eq!(path.commands()[1].args[0], units(10.0));
    assert_eq!(path.commands()[1].args[1], units(10.0));
    assert_eq!(path.commands()[1].args[2], units(20.0));
    assert_eq!(path.commands()[1].args[3], units(20.0));
}

#[test]
fn it_extends_a_diagonal_line() {
    let path = Path::new("M 10 20 L 75 100".to_string()).unwrap();

    let bounds = path.bounds().unwrap();

    assert_eq!(bounds.x1(), units(10.0));
    assert_eq!(bounds.y1(), units(20.0));
    assert_eq!(bounds.x2(), units(75.0));
    assert_eq!(bounds.y2(), units(100.0));
}

#[test]
fn it_extends_a_relative_diagonal_line() {
    let path = Path::new("M 10 20 l 65 80".to_string()).unwrap();

    let bounds = path.bounds().unwrap();

    assert_eq!(bounds.x1(), units(10.0));
    assert_eq!(bounds.y1(), units(20.0));
    assert_eq!(bounds.x2(), units(75.0));
    assert_eq!(bounds.y2(), units(100.0));
}

#[test]
fn it_extends_a_horizontal_line() {
    let path = Path::new("M 10 20 H 75".to_string()).unwrap();

    let bounds = path.bounds().unwrap();

    assert_eq!(bounds.x1(), units(10.0), "The first point (x) shouldn't change");
    assert_eq!(bounds.y1(), units(20.0), "The first point (y) shouldn't change");
    assert_eq!(bounds.x2(), units(75.0), "The second point (x) should change");
    assert_eq!(bounds.y2(), units(20.0), "The second point (y) should change");
}

#[test]
fn it_extends_a_relative_horizontal_line() {
    let path = Path::new("M 10 20 h 65".to_string()).unwrap();

    let bounds = path.bounds().unwrap();

    assert_eq!(bounds.x1(), units(10.0), "The first point (x) shouldn't change");
    assert_eq!(bounds.y1(), units(20.0), "The first point (y) shouldn't change");
    assert_eq!(bounds.x2(), units(75.0), "The second point (x) should change");
    assert_eq!(bounds.y2(), units(20.0), "The second point (y) should change");
}

#[test]
fn it_extends_a_vertical_line() {
    let path = Path::new("M 10 20 V 75".to_string()).unwrap();

    let bounds = path.bounds().unwrap();

    assert_eq!(bounds.x1(), units(10.0), "The first point (x) shouldn't change");
    assert_eq!(bounds.y1(), units(20.0), "The first point (y) shouldn't change");
    assert_eq!(bounds.x2(), units(10.0), "The second point (x) should change");
    assert_eq!(bounds.y2(), units(75.0), "The second point (y) should change");
}

#[test]
fn it_extends_a_relative_vertical_line() {
    let path = Path::new("M 10 20 v 55".to_string()).unwrap();

    let bounds = path.bounds().unwrap();

    assert_eq!(bounds.x1(), units(10.0), "The first point (x) shouldn't change");
    assert_eq!(bounds.y1(), units(20.0), "The first point (y) shouldn't change");
    assert_eq!(bounds.x2(), units(10.0), "The second point (x) should change");
    assert_eq!(bounds.y2(), units(75.0), "The second point (y) should change");
}

#[test]
fn it_extends_a_cubic_bezier_curve() {
    let path = Path::new("M 10 20 C 40 25 25 60 50 50".to_string()).unwrap();

    let bounds = path.bounds().unwrap();

    assert_eq!(bounds.x1(), units(10.0), "The first point (x) shouldn't change");
    assert_eq!(bounds.y1(), units(20.0), "The first point (y) shouldn't change");
    assert_eq!(bounds.x2(), units(50.0), "The second point (x) should change");
    assert_eq!(bounds.y2(), units(50.0), "The second point (y) should change");
}

#[test]
fn it_extends_a_relative_cubic_bezier_curve() {
    let path = Path::new("M 10 20 c 30 5 15 40 40 30".to_string()).unwrap();

    let bounds = path.bounds().unwrap();

    assert_eq!(bounds.x1(), units(10.0), "The first point (x) shouldn't change");
    assert_eq!(bounds.y1(), units(20.0), "The first point (y) shouldn't change");
    assert_eq!(bounds.x2(), units(50.0), "The second point (x) should change");
    assert_eq!(bounds.y2(), units(50.0), "The second point (y) should change");
}

#[test]
fn it_extends_a_shortcut_bezier_curve() {
    let path = Path::new("M 10 20 S 25 60 50 50".to_string()).unwrap();

    let bounds = path.bounds().unwrap();

    assert_eq!(bounds.x1(), units(10.0), "The first point (x) shouldn't change");
    assert_eq!(bounds.y1(), units(20.0), "The first point (y) shouldn't change");
    assert_eq!(bounds.x2(), units(50.0), "The second point (x) should change");
    assert_eq!(bounds.y2(), units(50.0), "The second point (y) should change");
}

#[test]
fn it_extends_a_relative_shortcut_bezier_curve() {
    let path = Path::new("M 10 20 s 15 40 40 30".to_string()).unwrap();

    let bounds = path.bounds().unwrap();

    assert_eq!(bounds.x1(), units(10.0), "The first point (x) shouldn't change");
    assert_eq!(bounds.y1(), units(20.0), "The first point (y) shouldn't change");
    assert_eq!(bounds.x2(), units(50.0), "The second point (x) should change");
    assert_eq!(bounds.y2(), units(50.0), "The second point (y) should change");
}

#[test]
fn it_extends_a_quadratic_bezier_curve() {
    let path = Path::new("M 10 20 Q 25 60 50 50".to_string()).unwrap();

    let bounds = path.bounds().unwrap();

    assert_eq!(bounds.x1(), units(10.0), "The first point (x) shouldn't change");
    assert_eq!(bounds.y1(), units(20.0), "The first point (y) shouldn't change");
    assert_eq!(bounds.x2(), units(50.0), "The second point (x) should change");
    assert_eq!(bounds.y2(), units(50.0), "The second point (y) should change");
}

#[test]
fn it_extends_a_relative_bezier_curve() {
    let path = Path::new("M 10 20 q 15 40 40 30".to_string()).unwrap();

    let bounds = path.bounds().unwrap();

    assert_eq!(bounds.x1(), units(10.0), "The first point (x) shouldn't change");
    assert_eq!(bounds.y1(), units(20.0), "The first point (y) shouldn't change");
    assert_eq!(bounds.x2(), units(50.0), "The second point (x) should change");
    assert_eq!(bounds.y2(), units(50.0), "The second point (y) should change");
}

#[test]
fn it_extends_a_shortcut_quadratic_bezier_curve() {
    let path = Path::new("M 10 20 T 50 50".to_string()).unwrap();

    let bounds = path.bounds().unwrap();

    assert_eq!(bounds.x1(), units(10.0), "The first point (x) shouldn't change");
    assert_eq!(bounds.y1(), units(20.0), "The first point (y) shouldn't change");
    assert_eq!(bounds.x2(), units(50.0), "The second point (x) should change");
    assert_eq!(bounds.y2(), units(50.0), "The second point (y) should change");
}

#[test]
fn it_extends_a_relative_shortcut_quadratic_bezier_curve() {
    let path = Path::new("M 10 20 t 40 30".to_string()).unwrap();

    let bounds = path.bounds().unwrap();

    assert_eq!(bounds.x1(), units(10.0), "The first point (x) shouldn't change");
    assert_eq!(bounds.y1(), units(20.0), "The first point (y) shouldn't change");
    assert_eq!(bounds.x2(), units(50.0), "The second point (x) should change");
    assert_eq!(bounds.y2(), units(50.0), "The second point (y) should change");
}

#[test]
fn it_extends_an_arc_curve() {
    let path = Path::new("M 10 20 A 25 25 0 0 0 50 50".to_string()).unwrap();

    let bounds = path.bounds().unwrap();

    assert_eq!(bounds.x1(), units(10.0), "The first point (x) shouldn't change");
    assert_eq!(bounds.y1(), units(20.0), "The first point (y) shouldn't change");
    assert_eq!(bounds.x2(), units(50.0), "The second point (x) should change");
    assert_eq!(bounds.y2(), units(50.0), "The second point (y) should change");
}

#[test]
fn it_extends_a_relative_arc_curve() {
    let path = Path::new("M 10 20 a 25 25 0 0 0 40 30".to_string()).unwrap();

    let bounds = path.bounds().unwrap();

    assert_eq!(bounds.x1(), units(10.0), "The first point (x) shouldn't change");
    assert_eq!(bounds.y1(), units(20.0), "The first point (y) shouldn't change");
    assert_eq!(bounds.x2(), units(50.0), "The second point (x) should change");
    assert_eq!(bounds.y2(), units(50.0), "The second point (y) should change");
}

#[test]
fn it_close_the_curve() {
    let path = Path::new("M 10 20 L 50 50 Z".to_string()).unwrap();

    let bounds = path.bounds().unwrap();

    assert_eq!(bounds.x1(), units(10.0), "The first point (x) shouldn't change");
    assert_eq!(bounds.y1(), units(20.0), "The first point (y) shouldn't change");
    assert_eq!(bounds.x2(), units(50.0), "The second point (x) should change");
    assert_eq!(bounds.y2(), units(50.0), "The second point (y) should change");
    assert_eq!(
        bounds.last_point(),
        (units(10.0), units(20.0)),
        "The last point should be the first one"
    );
}

fn bounds_of(d: &str) -> (Coord, Coord, Coord, Coord) {
    let b = Path::new(d.to_string()).unwrap().bounds().unwrap();
    (b.x1(), b.y1(), b.x2(), b.y2())
}

#[test]
fn relative_line_gives_the_box_of_the_absolute_line() {
    assert_eq!(bounds_of("M 10 20 l 65 80"), bounds_of("M 10 20 L 75 100"));
}

#[test]
fn unknown_letter_is_an_invalid_command() {
    let r = Path::new("M 0 0 W 10 10 20 20".to_string());
    assert_eq!(r.unwrap_err(), PathError::InvalidCommand { command: 'W' });
}

#[test]
fn non_numeric_token_is_an_invalid_argument_with_its_position() {
    let r = Path::new("M 0 0 L 1# 2".to_string());
    assert_eq!(
        r.unwrap_err(),
        PathError::InvalidArgument { token: "1#".to_string(), position: 8 }
    );
}

#[test]
fn comma_separated_numbers_are_invalid_arguments() {
    let r = Path::new("M 0,0".to_string());
    assert_eq!(
        r.unwrap_err(),
        PathError::InvalidArgument { token: "0,0".to_string(), position: 2 }
    );
}

#[test]
fn missing_end_point_is_a_malformed_command() {
    let p = Path::new("M 0 0 C 1 2 3 4 5".to_string()).unwrap();
    assert_eq!(
        p.bounds().unwrap_err(),
        PathError::MalformedCommand { command: 'C', index: 5 }
    );
    let p = Path::new("M 0 0 h".to_string()).unwrap();
    assert_eq!(
        p.bounds().unwrap_err(),
        PathError::MalformedCommand { command: 'h', index: 0 }
    );
    let p = Path::new("M 0 0 A 1 1 0 0".to_string()).unwrap();
    assert_eq!(
        p.bounds().unwrap_err(),
        PathError::MalformedCommand { command: 'A', index: 5 }
    );
}

#[test]
fn decimals_and_signs_are_exact() {
    let p = Path::new("M 1.5 -2.25 L +3 .5".to_string()).unwrap();
    assert_eq!(p.commands()[0].args[0], 1_500_000_000);
    assert_eq!(p.commands()[0].args[1], -2_250_000_000);
    assert_eq!(p.commands()[1].args[0], 3 * SCALE);
    assert_eq!(p.commands()[1].args[1], 500_000_000);
    assert_eq!(bounds_of("M 1.5 -2.25 L +3 .5"), (1_500_000_000, -2_250_000_000, 3 * SCALE, 500_000_000));
}

#[test]
fn fraction_digits_past_the_ninth_are_dropped() {
    let p = Path::new("M 0.1234567891 -0.0000000019".to_string()).unwrap();
    assert_eq!(p.commands()[0].args[0], 123_456_789);
    assert_eq!(p.commands()[0].args[1], -1);
}

#[test]
fn lone_signs_dots_and_huge_numbers_are_rejected() {
    assert!(matches!(Path::new("M - 1".to_string()), Err(PathError::InvalidArgument { .. })));
    assert!(matches!(Path::new("M . 1".to_string()), Err(PathError::InvalidArgument { .. })));
    assert!(matches!(Path::new("M 1.2.3 1".to_string()), Err(PathError::InvalidArgument { .. })));
    assert!(matches!(Path::new("M 0 0 Q 1 2 X 3".to_string()), Err(PathError::InvalidCommand { command: 'X' })));
    assert!(matches!(
        Path::new("M 1000000000 1".to_string()),
        Err(PathError::InvalidArgument { .. })
    ));
    assert!(Path::new("M 999999999.999999999 1".to_string()).is_ok());
}

#[test]
fn empty_path_has_the_degenerate_box() {
    assert_eq!(bounds_of(""), (0, 0, 0, 0));
    assert_eq!(Path::new("  ".to_string()).unwrap().commands().len(), 0);
}

#[test]
fn text_before_the_first_letter_is_skipped() {
    assert_eq!(bounds_of("12 M 10 20"), (units(10.0), units(20.0), units(10.0), units(20.0)));
}

#[test]
fn the_first_command_sets_both_corners() {
    assert_eq!(bounds_of("L 10 20"), (units(10.0), units(20.0), units(10.0), units(20.0)));
    assert_eq!(bounds_of("l 10 20 L 0 0"), (0, 0, units(10.0), units(20.0)));
}

#[test]
fn only_the_first_argument_group_counts() {
    assert_eq!(bounds_of("M 0 0 L 10 10 20 20"), (0, 0, units(10.0), units(10.0)));
}

#[test]
fn lower_case_move_is_absolute() {
    assert_eq!(bounds_of("M 10 10 m 20 30"), (units(10.0), units(10.0), units(20.0), units(30.0)));
}

#[test]
fn close_returns_the_pen_to_the_first_corner() {
    let b = Path::new("M 10 20 L 50 50 Z l 5 5".to_string()).unwrap().bounds().unwrap();
    assert_eq!(b.last_point(), (units(15.0), units(25.0)));
    assert_eq!((b.x1(), b.y1(), b.x2(), b.y2()), (units(10.0), units(20.0), units(50.0), units(50.0)));
}

#[test]
fn replaying_twice_gives_the_same_box() {
    let p = Path::new("M 10 20 c 1 2 3 4 5 6 H -4 v 9 Z t 1 1".to_string()).unwrap();
    assert_eq!(p.bounds(), p.bounds());
    let q = Path::new("M 10 20 c 1 2 3 4 5 6 H -4 v 9 Z t 1 1".to_string()).unwrap();
    assert_eq!(p.bounds(), q.bounds());
}

#[test]
fn corners_are_ordered_after_a_mixed_path() {
    let (x1, y1, x2, y2) = bounds_of("M 10 20 l -30 5 V -7 q 0 0 40 40 h -100 Z");
    assert!(x1 <= x2 && y1 <= y2);
    assert_eq!((x1, y1, x2, y2), (units(-80.0), units(-7.0), units(20.0), units(33.0)));
}

#[test]
fn a_backward_move_keeps_the_corners_ordered() {
    assert_eq!(bounds_of("M 10 20 M 5 5"), (units(5.0), units(5.0), units(10.0), units(20.0)));
    assert_eq!(bounds_of("M 0 0 L 10 10 M 20 20"), (0, 0, units(20.0), units(20.0)));
}

#[test]
fn command_clone_keeps_letter_and_arguments() {
    let p = Path::new("C 1 2 3 4 5 6".to_string()).unwrap();
    let c = p.commands()[0].clone();
    assert_eq!(c.command, 'C');
    assert_eq!(c.args, p.commands()[0].args);
}

#[test]
fn unicode_white_space_separates_tokens() {
    let p = Path::new("M 1\u{A0}2\u{2003}L\u{3000}5 6".to_string()).unwrap();
    assert_eq!(p.commands()[0].args, vec![units(1.0), units(2.0)]);
    assert_eq!(bounds_of("M 1\u{A0}2 L 5\u{2003}6"), (units(1.0), units(2.0), units(5.0), units(6.0)));
    assert_eq!(
        Path::new("M 1\u{A0}2 1..5".to_string()).unwrap_err(),
        PathError::InvalidArgument { token: "1..5".to_string(), position: 6 }
    );
}

#[test]
fn absolute_line_to_the_pen_plus_offset_gives_the_relative_box() {
    let rel = Path::new("M 3 4 h 2 l -7 9 V 1".to_string()).unwrap().bounds().unwrap();
    let abs = Path::new("M 3 4 h 2 L -2 13 V 1".to_string()).unwrap().bounds().unwrap();
    assert_eq!(rel, abs);
}
