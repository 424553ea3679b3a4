use svg_metrics::bounds::Bounds;
use svg_metrics::coord::{Coord, SCALE};

fn units(v: f64) -> Coord {
    (v * SCALE as f64) as Coord
}

#[test]
fn move_first_last_point() {
    let path = Bounds::new();

    let path = path.move_last_point(units(10.0), units(10.0), true);
    assert_eq!(path.x1, units(10.0));
    assert_eq!(path.y1, units(10.0));
    assert_eq!(path.x2, units(10.0));
    assert_eq!(path.y2, units(10.0));
    assert_eq!(path.last_point, (units(10.0), units(10.0)));

    let path = path.move_last_point(units(20.0), units(20.0), false);
    assert_eq!(path.x1, units(10.0));
    assert_eq!(path.y1, units(10.0));
    assert_eq!(path.x2, units(20.0));
    assert_eq!(path.y2, units(20.0));
    assert_eq!(path.last_point, (units(20.0), units(20.0)));
}

#[test]
fn close_path() {
    let path = Bounds::new();

    let path = path.move_last_point(units(10.0), units(10.0), false);
    let path = path.close();
    assert_eq!(path.x1, units(0.0));
    assert_eq!(path.y1, units(0.0));
    assert_eq!(path.x2, units(10.0));
    assert_eq!(path.y2, units(10.0));
    assert_eq!(path.last_point, (units(0.0), units(0.0)));
}

#[test]
fn extends_path() {
    let path = Bounds::new();

    let path = path.extends(units(10.0), units(10.0));
    assert_eq!(path.x1, units(0.0));
    assert_eq!(path.y1, units(0.0));
    assert_eq!(path.x2, units(10.0));
    assert_eq!(path.y2, units(10.0));
    assert_eq!(path.last_point, (units(10.0), units(10.0)));
}

#[test]
fn bounds_move_first_last_point() {
    let path = Bounds { x1: 0, y1: 0, x2: 0, y2: 0, last_point: (0, 0) };

    let path = path.move_last_point(10, 10, true);
    assert_eq!(path.x1, 10);
    assert_eq!(path.y1, 10);
    assert_eq!(path.x2, 10);
    assert_eq!(path.y2, 10);
    assert_eq!(path.last_point, (10, 10));

    let path = path.move_last_point(20, 20, false);
    assert_eq!(path.x1, 10);
    assert_eq!(path.y1, 10);
    assert_eq!(path.x2, 20);
    assert_eq!(path.y2, 20);
    assert_eq!(path.last_point, (20, 20));
}

#[test]
fn bounds_close_path() {
    let path = Bounds { x1: 0, y1: 0, x2: 0, y2: 0, last_point: (0, 0) };

    let path = path.move_last_point(10, 10, false);
    let path = path.close();
    assert_eq!(path.x1, 0);
    assert_eq!(path.y1, 0);
    assert_eq!(path.x2, 10);
    assert_eq!(path.y2, 10);
    assert_eq!(path.last_point, (0, 0));
}

#[test]
fn bounds_extends_path() {
    let path = Bounds { x1: 0, y1: 0, x2: 0, y2: 0, last_point: (0, 0) };

    let path = path.extends(10, 10);
    assert_eq!(path.x1, 0);
    assert_eq!(path.y1, 0);
    assert_eq!(path.x2, 10);
    assert_eq!(path.y2, 10);
    assert_eq!(path.last_point, (10, 10));
}

#[test]
fn extends_grows_towards_negative_coordinates() {
    let b = Bounds::new().extends(-5, 7).extends(3, -9);
    assert_eq!((b.x1(), b.y1(), b.x2(), b.y2()), (-5, -9, 3, 7));
    assert_eq!(b.last_point(), (3, -9));
}

#[test]
fn a_later_move_grows_the_box() {
    let b = Bounds::new().move_last_point(10, 20, true).move_last_point(5, 5, false);
    assert_eq!((b.x1(), b.y1(), b.x2(), b.y2()), (5, 5, 10, 20));
    assert_eq!(b.last_point(), (5, 5));
}
