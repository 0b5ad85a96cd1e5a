use racing_core::geometry::{intersection_of_2_lines, Point};

fn pt(x: i64, y: i64) -> Point {
    Point { x, y }
}

#[test]
fn intersection_of_crossing_diagonals() {
    // The diagonals of the square (0,0)-(2,2) cross at (1,1).
    let r = intersection_of_2_lines(pt(0, 0), pt(2, 2), pt(0, 2), pt(2, 0));
    let p = r.expect("diagonals must intersect");
    assert!(p.den > 0);
    assert_eq!(p.x_num, p.den);
    assert_eq!(p.y_num, p.den);
    assert_eq!(p.x_num, 8);
    assert_eq!(p.y_num, 8);
    assert_eq!(p.den, 8);
}

#[test]
fn intersection_of_parallel_lines_is_none() {
    let r = intersection_of_2_lines(pt(0, 0), pt(1, 0), pt(0, 1), pt(1, 1));
    assert!(r.is_none());
}

#[test]
fn intersection_of_degenerate_line_is_none() {
    // A line given by two equal points has zero coefficients.
    let r = intersection_of_2_lines(pt(3, 3), pt(3, 3), pt(0, 0), pt(1, 1));
    assert!(r.is_none());
}

#[test]
fn intersection_is_commutative() {
    let (a, b) = (pt(-5, 0), pt(7, 9));
    let (c, d) = (pt(2, -3), pt(2, 11));
    let r1 = intersection_of_2_lines(a, b, c, d).expect("lines cross");
    let r2 = intersection_of_2_lines(c, d, a, b).expect("lines cross");
    assert_eq!(r1, r2);
}

#[test]
fn intersection_off_segment_is_still_on_lines() {
    // The function intersects infinite lines: these segments do not touch,
    // but their lines cross at (4, 0).
    let r = intersection_of_2_lines(pt(0, 4), pt(1, 3), pt(4, 10), pt(4, 5));
    let p = r.expect("non-parallel lines");
    assert_eq!(p.x_num, 4 * p.den);
    assert_eq!(p.y_num, 0);
}

#[test]
fn inside_rectangle_is_inclusive() {
    let p = pt(2, 3);
    assert!(p.inside_rectangle(pt(2, 3), pt(2, 3)));
    assert!(p.inside_rectangle(pt(0, 0), pt(2, 3)));
    assert!(p.inside_rectangle(pt(2, 5), pt(4, 3)));
    assert!(!p.inside_rectangle(pt(0, 0), pt(1, 5)));
}

#[test]
fn add_x_and_add_y_shift_one_coordinate() {
    let p = pt(5, -7).add_x(3);
    assert_eq!((p.x, p.y), (8, -7));
    let q = pt(5, -7).add_y(-3);
    assert_eq!((q.x, q.y), (5, -10));
}
