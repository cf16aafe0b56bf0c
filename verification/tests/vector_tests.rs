use snake_core::{Vector, SCALE};

fn cells(c: f64) -> i64 {
    (c * SCALE as f64).round() as i64
}

#[test]
fn new_and_accessors() {
    let v = Vector::new(3, -4);
    assert_eq!(v.x, 3);
    assert_eq!(v.y, -4);
}

#[test]
fn add_and_subtract_are_componentwise() {
    let a = Vector::new(cells(1.5), cells(2.0));
    let b = Vector::new(cells(0.5), cells(-1.0));
    let s = a.add(&b);
    assert_eq!(s.x, cells(2.0));
    assert_eq!(s.y, cells(1.0));
    let d = a.subtract(&b);
    assert_eq!(d.x, cells(1.0));
    assert_eq!(d.y, cells(3.0));
}

#[test]
fn scale_by_scales_in_cells() {
    let v = Vector::new(cells(2.0), cells(-1.0));
    let r = v.scale_by(cells(0.5));
    assert_eq!(r.x, cells(1.0));
    assert_eq!(r.y, cells(-0.5));
}

#[test]
fn length_of_three_four_five_triangle() {
    let v = Vector::new(cells(3.0), cells(4.0));
    assert_eq!(v.length(), cells(5.0));
}

#[test]
fn subtract_self_has_length_zero() {
    let v = Vector::new(cells(12.25), cells(-7.5));
    let d = v.subtract(&v);
    assert_eq!(d.length(), 0);
}

#[test]
fn normalize_has_unit_length() {
    let axis = Vector::new(cells(42.0), 0);
    let u = axis.normalize();
    assert_eq!(u.x, SCALE);
    assert_eq!(u.y, 0);
    assert_eq!(u.length(), SCALE);

    let diag = Vector::new(cells(3.0), cells(4.0));
    let w = diag.normalize();
    assert_eq!(w.x, cells(0.6));
    assert_eq!(w.y, cells(0.8));
    assert_eq!(w.length(), SCALE);
}

#[test]
fn equal_to_is_exact() {
    let a = Vector::new(5, 7);
    assert!(a.equal_to(&Vector::new(5, 7)));
    assert!(!a.equal_to(&Vector::new(5, 8)));
}

#[test]
fn opposite_of_negation() {
    let v = Vector::new(cells(2.5), cells(-3.0));
    let n = v.scale_by(-SCALE);
    assert_eq!(n.x, -v.x);
    assert_eq!(n.y, -v.y);
    assert!(v.is_opposite(&n));
}

#[test]
fn opposite_of_self_only_when_zero() {
    let v = Vector::new(cells(1.0), cells(2.0));
    assert!(!v.is_opposite(&v));
    let z = Vector::new(0, 0);
    assert!(z.is_opposite(&z));
}

#[test]
fn dot_product_is_exact() {
    let a = Vector::new(3, 4);
    let b = Vector::new(-2, 5);
    assert_eq!(a.dot_product(&b), (3 * -2 + 4 * 5) as i128);
}
