use std::cmp::Ordering;
use tubes::scan::point_cmp;

#[test]
fn points_in_one_row_order_by_x() {
    assert_eq!(point_cmp(&(10, 50), &(20, 52)), Ordering::Less);
    assert_eq!(point_cmp(&(30, 52), &(20, 50)), Ordering::Greater);
    assert_eq!(point_cmp(&(20, 53), &(20, 50)), Ordering::Equal);
}

#[test]
fn points_in_different_rows_order_by_y() {
    assert_eq!(point_cmp(&(90, 10), &(5, 40)), Ordering::Less);
    assert_eq!(point_cmp(&(5, 40), &(90, 10)), Ordering::Greater);
}

#[test]
fn sorting_centers_gives_reading_order() {
    let mut centers = vec![(40, 81), (10, 20), (40, 22), (10, 80)];
    centers.sort_by(|a, b| point_cmp(a, b));
    assert_eq!(centers, vec![(10, 20), (40, 22), (10, 80), (40, 81)]);
}
