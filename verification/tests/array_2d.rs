use fractal_flames::ds::array_2d::{Index2D, MultiIndex};

#[test]
fn test_lin_index() {
    let index = Index2D::from(2, 2);

    let mut lin = index.lin_index([3, 3]);

    assert_eq!(lin, 8);

    lin = index.lin_index([4, 3]);

    assert_eq!(lin, 10);
}

#[test]
fn lin_index_is_width_times_row_plus_column() {
    assert_eq!(Index2D::from(0, 0).lin_index([5, 7]), 0);
    assert_eq!(Index2D::from(4, 0).lin_index([5, 7]), 4);
    assert_eq!(Index2D::from(0, 1).lin_index([5, 7]), 5);
    assert_eq!(Index2D::from(4, 6).lin_index([5, 7]), 34);
}

#[test]
fn index_accessors_and_step() {
    let mut index: MultiIndex<2> = Index2D::from(3, 9);
    assert_eq!(index.x(), 3);
    assert_eq!(index.y(), 9);
    index.next();
    assert_eq!(index.x(), 4);
    assert_eq!(index.y(), 10);
    assert_eq!(index, Index2D::from(4, 10));
    let copy = index;
    assert_eq!(copy.lin_index([20, 20]), 204);
}
