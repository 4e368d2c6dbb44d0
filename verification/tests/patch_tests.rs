use ndarray::{arr2, Array2};
use overlapping_wfc::grid::Grid;
use overlapping_wfc::offset::Offset2D;
use overlapping_wfc::patch::{shifted, Patch2D};
use overlapping_wfc::utils::rotate_90_clockwise;

fn grid(a: Array2<usize>) -> Grid {
    let shape = a.dim();
    Grid::from_shape_vec(shape, a.iter().cloned().collect()).unwrap()
}

#[test]
fn array2_shape_test() {
    let foo: Array2<usize> = Array2::eye(5);
    let foo = grid(foo);
    assert_eq!((5usize, 5usize), Patch2D::shape(&foo));
}

#[test]
fn array2_patch2d_compare_test_1() {
    let a = grid(arr2(&[[0usize, 1, 2], [3, 4, 5], [6, 7, 8]]));
    let b = grid(arr2(&[[4usize, 5], [7, 8]]));
    assert!(a.compare_with_offset(&b, (1, 1)));
}

#[test]
fn array2_patch2d_compare_test_2() {
    let a = grid(arr2(&[[0usize, 1, 2], [3, 4, 5], [6, 7, 8]]));
    let b = grid(arr2(&[[4usize, 5], [7, 0]]));
    assert!(a.compare_with_offset(&b, (-1, -1)));
}

#[test]
fn array2_patch2d_compare_test_3() {
    let a = grid(arr2(&[[0usize, 1, 2], [3, 4, 5], [6, 7, 8]]));
    let b = grid(arr2(&[[100usize, 500], [700, 10000]]));
    assert!(a.compare_with_offset(&b, (-4, -4)));
}

#[test]
fn array2_patch2d_compare_test_4() {
    let a = grid(arr2(&[[0usize, 1, 2], [3, 4, 5], [6, 7, 8]]));
    let b = grid(arr2(&[[4usize, 4, 4], [4, 4, 4], [4, 4, 4]]));
    assert!(!a.compare_with_offset(&b, (1, 1)));
}

#[test]
fn array2_patch2d_compare_test_5() {
    let a = grid(arr2(&[[0usize, 1, 2], [3, 4, 5], [6, 7, 8]]));
    let b = grid(arr2(&[[5usize, 4, 4], [8, 4, 4], [4, 4, 4]]));
    assert!(a.compare_with_offset(&b, (1, 2)));
}

#[test]
fn compare_is_symmetric_under_opposite_offset() {
    let a = grid(arr2(&[[1usize, 2], [3, 4]]));
    let b = grid(arr2(&[[2usize, 9], [4, 9]]));
    for dy in -1isize..2 {
        for dx in -1isize..2 {
            assert_eq!(
                a.compare_with_offset(&b, (dy, dx)),
                b.compare_with_offset(&a, (-dy, -dx))
            );
        }
    }
    assert!(a.compare_with_offset(&b, (0, 1)));
    assert!(!a.compare_with_offset(&b, (0, 0)));
}

#[test]
fn compare_with_itself_at_origin() {
    let a = grid(arr2(&[[1usize, 2], [3, 4]]));
    assert!(a.compare_with_offset(&a, (0, 0)));
    assert!(!a.compare_with_offset(&a, (0, 1)));
}

#[test]
fn compare_with_huge_offset_has_no_overlap() {
    let a = grid(arr2(&[[1usize, 2], [3, 4]]));
    let b = grid(arr2(&[[5usize, 6], [7, 8]]));
    assert!(a.compare_with_offset(&b, (isize::MAX, isize::MIN)));
}

#[test]
fn shifted_stays_within_bounds() {
    assert_eq!(shifted(3, 2, 6), Some(5));
    assert_eq!(shifted(3, 3, 6), None);
    assert_eq!(shifted(3, -3, 6), Some(0));
    assert_eq!(shifted(3, -4, 6), None);
    assert_eq!(shifted(usize::MAX, isize::MAX, usize::MAX), None);
    assert_eq!(shifted(0, isize::MIN, 10), None);
}

#[test]
fn grid_from_shape_vec_checks_the_shape() {
    assert!(Grid::from_shape_vec((2, 3), vec![1, 2, 3, 4, 5]).is_none());
    assert!(Grid::from_shape_vec((0, usize::MAX), vec![]).is_none());
    let g = Grid::from_shape_vec((2, 3), vec![1, 2, 3, 4, 5, 6]).unwrap();
    assert_eq!(g.dim(), (2, 3));
    assert_eq!(g.get(0, 0), Some(1));
    assert_eq!(g.get(1, 2), Some(6));
    assert_eq!(g.get(1, 0), Some(4));
    assert_eq!(g.get(2, 0), None);
    assert_eq!(g.get(0, 3), None);
    assert_eq!(g.at(0, 2), 3);
    assert_eq!(g.to_rows(), vec![vec![1, 2, 3], vec![4, 5, 6]]);
}

#[test]
fn grid_without_rows_keeps_its_width() {
    let g = Grid::from_shape_vec((0, 5), vec![]).unwrap();
    assert_eq!(g.dim(), (0, 5));
    assert_eq!(g.to_rows(), Vec::<Vec<usize>>::new());
}

#[test]
fn rotate_quarter_turn_clockwise() {
    let g = grid(arr2(&[[1usize, 2, 3], [4, 5, 6]]));
    let r = rotate_90_clockwise(&g);
    assert_eq!(r.dim(), (3, 2));
    assert_eq!(r.to_rows(), vec![vec![4, 1], vec![5, 2], vec![6, 3]]);
}

#[test]
fn rotate_four_times_is_identity() {
    let g = grid(arr2(&[[1usize, 2], [3, 4]]));
    let r = rotate_90_clockwise(&rotate_90_clockwise(&rotate_90_clockwise(
        &rotate_90_clockwise(&g),
    )));
    assert_eq!(r, g);
    assert_eq!(rotate_90_clockwise(&g).to_rows(), vec![vec![3, 1], vec![4, 2]]);
}

#[test]
fn offset_from_position_and_arithmetic() {
    assert_eq!(Offset2D::from_position((3, 4)), Some(Offset2D(3, 4)));
    assert_eq!(Offset2D::from_position((usize::MAX, 0)), None);
    assert_eq!(Offset2D::from_position((0, (isize::MAX as usize) + 1)), None);
    assert_eq!(
        Offset2D::from_position((isize::MAX as usize, 0)),
        Some(Offset2D(isize::MAX, 0))
    );
    assert_eq!(-Offset2D(2, -3), Offset2D(-2, 3));
    assert_eq!(Offset2D(5, 5) - Offset2D(2, 7), Offset2D(3, -2));
    assert_eq!(Offset2D::from((7isize, -1isize)), Offset2D(7, -1));
    assert_eq!(
        Offset2D::from_difference((10isize, 3isize), (4isize, 8isize)),
        Offset2D(-6, 5)
    );
}

#[test]
fn compare_at_takes_a_displacement() {
    let a = grid(arr2(&[[0usize, 1, 2], [3, 4, 5], [6, 7, 8]]));
    let b = grid(arr2(&[[4usize, 5], [7, 8]]));
    assert!(a.compare_at(&b, Offset2D(1, 1)));
    assert!(!a.compare_at(&b, Offset2D(0, 1)));
    assert!(a.compare_at(&b, Offset2D(3, 0)));
    assert_eq!(
        a.compare_at(&b, Offset2D(1, 1)),
        a.compare_with_offset(&b, Offset2D(1, 1))
    );
    assert_eq!(
        a.compare_at(&b, Offset2D(0, 1)),
        a.compare_with_offset(&b, (0isize, 1isize))
    );
}

#[test]
fn difference_of_displacements() {
    assert_eq!(
        Offset2D::difference(Offset2D(10, 3), Offset2D(4, 8)),
        Offset2D(-6, 5)
    );
    assert_eq!(
        Offset2D::from_difference(Offset2D(10, 3), Offset2D(4, 8)),
        Offset2D(-6, 5)
    );
    assert_eq!(
        Offset2D::difference(Offset2D(isize::MIN, 0), Offset2D(-1, isize::MAX)),
        Offset2D(isize::MAX, isize::MAX)
    );
}
