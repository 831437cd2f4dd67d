//! Orientation of point triples.

use tidy_tree::{Orientation, Point};

#[test]
fn orient() {
    let a = Point { x: 0, y: 0 };
    let b = Point { x: 1, y: 0 };
    let c = Point { x: 0, y: 1 };
    assert_eq!(Point::orientation(&a, &b, &c), Orientation::CounterClockWise);
    let a = Point { x: 0, y: 0 };
    let b = Point { x: 0, y: 1 };
    let c = Point { x: 1, y: 0 };
    assert_eq!(Point::orientation(&a, &b, &c), Orientation::ClockWise);
    let a = Point { x: 0, y: 0 };
    let b = Point { x: 1, y: 1 };
    let c = Point { x: 4, y: 4 };
    assert_eq!(Point::orientation(&a, &b, &c), Orientation::Colinear);
}
