use snake_core::{Segment, Vector, SCALE};

fn cells(c: f64) -> i64 {
    (c * SCALE as f64).round() as i64
}

#[test]
fn get_vector_and_length() {
    let s = Segment::new(
        Vector::new(cells(1.0), cells(2.0)),
        Vector::new(cells(4.0), cells(2.0)),
    );
    let v = s.get_vector();
    assert_eq!(v.x, cells(3.0));
    assert_eq!(v.y, 0);
    assert_eq!(s.length(), cells(3.0));
}

#[test]
fn midpoint_is_inside() {
    let s = Segment::new(
        Vector::new(cells(0.5), cells(4.5)),
        Vector::new(cells(6.5), cells(4.5)),
    );
    let m = Vector::new(cells(3.5), cells(4.5));
    assert!(s.is_point_inside(&m));
}

#[test]
fn midpoint_is_inside_on_a_diagonal_segment() {
    // Rounding the two half-lengths down may lose one quantum against the
    // rounded whole; the containment window absorbs it.
    let s = Segment::new(Vector::new(0, 0), Vector::new(cells(2.0), cells(2.0)));
    let m = Vector::new(cells(1.0), cells(1.0));
    assert!(s.is_point_inside(&m));
}

#[test]
fn endpoints_are_inside_and_far_points_are_not() {
    let a = Vector::new(cells(1.5), cells(1.5));
    let b = Vector::new(cells(1.5), cells(5.5));
    let s = Segment::new(a, b);
    assert!(s.is_point_inside(&a));
    assert!(s.is_point_inside(&b));
    assert!(!s.is_point_inside(&Vector::new(cells(2.5), cells(3.5))));
    assert!(!s.is_point_inside(&Vector::new(cells(1.5), cells(6.5))));
}

#[test]
fn containment_tolerates_a_quantum_of_drift() {
    // A point one quantum (1e-7 of a cell) off the line still passes, as the
    // rounded lengths absorb it; a point half a cell off does not.
    let s = Segment::new(Vector::new(0, 0), Vector::new(cells(2.0), 0));
    assert!(s.is_point_inside(&Vector::new(cells(1.0), 1)));
    assert!(!s.is_point_inside(&Vector::new(cells(1.0), cells(0.5))));
}

#[test]
fn projection_onto_axis_aligned_line() {
    let s = Segment::new(
        Vector::new(cells(2.0), cells(7.0)),
        Vector::new(cells(9.0), cells(7.0)),
    );
    let p = Vector::new(cells(4.25), cells(3.0));
    let q = s.get_projected_point(&p);
    assert_eq!(q.x, cells(4.25));
    assert_eq!(q.y, cells(7.0));

    let vertical = Segment::new(
        Vector::new(cells(1.0), cells(0.0)),
        Vector::new(cells(1.0), cells(5.0)),
    );
    let r = vertical.get_projected_point(&p);
    assert_eq!(r.x, cells(1.0));
    assert_eq!(r.y, cells(3.0));
}
