use retiler::math::Coordinate;
use retiler::math::Dabb2;
use retiler::math::MathUtils;
use retiler::math::ceil_div_i32;
use retiler::math::floor_div_i32;
use retiler::math::trunc_div_i32;

fn c(x: i32, y: i32) -> Coordinate {
    Coordinate { x, y }
}

fn boxed(bx: i32, by: i32, ex: i32, ey: i32) -> Dabb2 {
    Dabb2::bounds(c(bx, by), c(ex, ey))
}

#[test]
fn area_of_box() {
    assert_eq!(boxed(0, 0, 3, 2).area(), 6);
    assert_eq!(boxed(-2, -2, 2, 2).area(), 16);
    assert_eq!(boxed(5, 5, 5, 9).area(), 0);
}

#[test]
fn cell_is_unit_box() {
    let b = Dabb2::cell(c(7, -3));
    assert_eq!(b.begin, c(7, -3));
    assert_eq!(b.end, c(8, -2));
    assert_eq!(b.area(), 1);
}

#[test]
fn translate_and_scale() {
    let b = boxed(1, 2, 3, 4);
    let t = b.translated(c(10, 20));
    assert_eq!(t.begin, c(11, 22));
    assert_eq!(t.end, c(13, 24));
    let back = t.translated_back(c(10, 20));
    assert_eq!(back.begin, b.begin);
    assert_eq!(back.end, b.end);
    let s = b.scaled(3);
    assert_eq!(s.begin, c(3, 6));
    assert_eq!(s.end, c(9, 12));
    let sv = b.scaled_by(c(2, 5));
    assert_eq!(sv.begin, c(2, 10));
    assert_eq!(sv.end, c(6, 20));
}

#[test]
fn divide_truncates_toward_zero() {
    let b = boxed(-7, 7, 7, -7);
    let d = b.divided(2);
    assert_eq!(d.begin, c(-3, 3));
    assert_eq!(d.end, c(3, -3));
    let dv = b.divided_by(c(2, 7));
    assert_eq!(dv.begin, c(-3, 1));
    assert_eq!(dv.end, c(3, -1));
}

#[test]
fn intersect_self_is_identity() {
    let b = boxed(-3, 1, 4, 9);
    let i = b.intersect(b);
    assert_eq!(i.begin, b.begin);
    assert_eq!(i.end, b.end);
}

#[test]
fn intersect_overlapping_and_disjoint() {
    let a = boxed(0, 0, 4, 4);
    let b = boxed(2, 2, 6, 6);
    let i = a.intersect(b);
    assert_eq!(i.begin, c(2, 2));
    assert_eq!(i.end, c(4, 4));
    // disjoint boxes intersect to a degenerate box, which iterates empty
    let d = boxed(10, 10, 12, 12);
    let e = a.intersect(d);
    assert!(e.end.x <= e.begin.x);
    let mut it = e.into_iter();
    assert_eq!(it.next(), None);
}

#[test]
fn iteration_is_row_major_and_counts_area() {
    let b = boxed(0, 0, 3, 2);
    let mut it = b.into_iter();
    let expected = [(0, 0), (1, 0), (2, 0), (0, 1), (1, 1), (2, 1)];
    assert_eq!(it.count(), b.area());
    let mut seen = 0;
    while let Some(p) = it.next() {
        assert_eq!((p.x, p.y), expected[seen]);
        seen += 1;
    }
    assert_eq!(seen, b.area());
    assert_eq!(it.next(), None);
}

#[test]
fn iterating_empty_box_yields_nothing() {
    let zero_w = boxed(4, 0, 4, 5);
    let mut it = zero_w.into_iter();
    assert_eq!(it.next(), None);
    let zero_h = boxed(0, 3, 5, 3);
    let mut it2 = zero_h.into_iter();
    assert_eq!(it2.next(), None);
}

#[test]
fn correct_mod_handles_negatives() {
    assert_eq!(7i32.correct_mod(3), 1);
    assert_eq!((-5i32).correct_mod(3), 1);
    assert_eq!((-6i32).correct_mod(3), 0);
    assert_eq!(0i32.correct_mod(4), 0);
}

#[test]
fn floor_and_ceil_on_interval() {
    assert_eq!(7i32.floor_on_interval(4), 4);
    assert_eq!((-5i32).floor_on_interval(4), -8);
    assert_eq!(8i32.floor_on_interval(4), 8);
    // the ceiling always steps one whole interval above the floor
    assert_eq!(7i32.ceil_on_interval(4), 8);
    assert_eq!(8i32.ceil_on_interval(4), 12);
    assert_eq!((-5i32).ceil_on_interval(4), -4);
    let v = Coordinate { x: -5, y: 7 };
    let m = v.floor_on_interval(Coordinate { x: 4, y: 4 });
    assert_eq!((m.x, m.y), (-8, 4));
}

#[test]
fn division_helpers() {
    assert_eq!(floor_div_i32(-1, 256), -1);
    assert_eq!(floor_div_i32(-256, 256), -1);
    assert_eq!(floor_div_i32(255, 256), 0);
    assert_eq!(ceil_div_i32(1, 256), 1);
    assert_eq!(ceil_div_i32(256, 256), 1);
    assert_eq!(ceil_div_i32(257, 256), 2);
    assert_eq!(ceil_div_i32(0, 256), 0);
    assert_eq!(ceil_div_i32(-255, 256), 0);
    assert_eq!(trunc_div_i32(-7, 2), -3);
    assert_eq!(trunc_div_i32(7, -2), -3);
    assert_eq!(trunc_div_i32(-7, -2), 3);
    assert_eq!(trunc_div_i32(i32::MIN, 2), -1073741824);
}
