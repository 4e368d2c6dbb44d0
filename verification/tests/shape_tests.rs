use overlapping_wfc::offset::Offset2D;
use overlapping_wfc::shape::{clamp, ShapeRange2D};

#[test]
fn from_difference_test() {
    let base = Offset2D(1, 1);
    let test = Offset2D::from_difference((44, 44), (45, 45));
    assert_eq!(base, test);
}

#[test]
fn shaperange_iter_test_1() {
    let shape = ShapeRange2D::from_shape((2, 2));
    let items: Vec<_> = shape.into_iter().collect();
    assert_eq!(vec![(0, 0), (0, 1), (1, 0), (1, 1)], items);
}

#[test]
fn shaperange_iter_test_2() {
    let shape = ShapeRange2D::from_shape((3, 3)).shift_by((3, 7));
    let items: Vec<_> = shape.into_iter().collect();
    assert_eq!(9, items.len());
}

#[test]
fn shaperange_iter_test_3() {
    let shape = ShapeRange2D::from_shape((4, 4))
        .shift_by((-1, -2))
        .clamp_to((4, 4));
    let shape2 = ShapeRange2D::from_shape((3, 2));
    let items: Vec<_> = shape.into_iter().collect();
    let items2: Vec<_> = shape2.into_iter().collect();
    assert_eq!(items, items2);
}

#[test]
fn shaperange_iter_test_4() {
    let shape = ShapeRange2D::from_shape((5, 5))
        .shift_by((100, 7))
        .clamp_to((5, 5));
    let items: Vec<_> = shape.into_iter().collect();
    assert_eq!(0, items.len());
}

#[test]
fn clamp_test_1() {
    assert_eq!(0isize, clamp(0isize, -1isize, 1isize));
}

#[test]
fn clamp_test_2() {
    assert_eq!(5isize, clamp(0isize, 5isize, 20isize));
}

#[test]
fn clamp_test_3() {
    assert_eq!(100isize, clamp(1000isize, -100isize, 100isize));
}

#[test]
fn shift_by_offset_moves_the_range() {
    let moved = ShapeRange2D::from_shape((2, 3)).shift_by_offset(Offset2D(4, 1));
    let items: Vec<_> = moved.into_iter().collect();
    assert_eq!(
        items,
        vec![(4, 1), (4, 2), (4, 3), (5, 1), (5, 2), (5, 3)]
    );
    let same = ShapeRange2D::from_shape((2, 3)).shift_by(Offset2D(4, 1));
    assert_eq!(moved, same);
    let back = moved.shift_by_offset(-Offset2D(4, 1));
    assert_eq!(back, ShapeRange2D::from_shape((2, 3)));
}
