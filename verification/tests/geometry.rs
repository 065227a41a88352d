use mcutils::geometry::{
    index_to_offset, normalize, offset_to_coordinate, Coordinate, Offset, Region, Size,
};

#[test]
fn index_to_offset_runs_z_then_x_then_y() {
    let size = Size::new(2, 1, 2);
    assert_eq!(index_to_offset(size, 0), Offset::new(0, 0, 0));
    assert_eq!(index_to_offset(size, 1), Offset::new(0, 0, 1));
    assert_eq!(index_to_offset(size, 2), Offset::new(1, 0, 0));
    assert_eq!(index_to_offset(size, 3), Offset::new(1, 0, 1));
}

#[test]
fn index_to_offset_follows_the_formula() {
    let size = Size::new(3, 4, 5);
    // 37 = 2 + (1 + 2 * 3) * 5
    assert_eq!(index_to_offset(size, 37), Offset::new(1, 2, 2));
    assert_eq!(index_to_offset(size, 59), Offset::new(2, 3, 4));
    assert_eq!(index_to_offset(size, 15), Offset::new(0, 1, 0));
}

#[test]
fn index_to_offset_is_not_the_index_itself() {
    let size = Size::new(7, 7, 7);
    let at = index_to_offset(size, 100);
    assert_eq!(at, Offset::new(0, 2, 2));
    assert_ne!(at.x as usize, 100);
    assert_ne!(at.y as usize, 100);
    assert_ne!(at.z as usize, 100);
}

#[test]
fn index_to_offset_covers_the_cuboid_once() {
    let size = Size::new(3, 2, 4);
    let volume = size.volume();
    assert_eq!(volume, 24);
    let mut seen = vec![false; volume];
    for i in 0..volume {
        let at = index_to_offset(size, i);
        assert!(at.x < size.x && at.y < size.y && at.z < size.z);
        let back = at.z as usize + (at.x as usize + at.y as usize * 3) * 4;
        assert_eq!(back, i);
        assert!(!seen[back]);
        seen[back] = true;
    }
    assert!(seen.iter().all(|s| *s));
}

#[test]
fn index_to_offset_beyond_the_volume_keeps_counting_in_y() {
    let size = Size::new(2, 1, 2);
    assert_eq!(index_to_offset(size, 4), Offset::new(0, 1, 0));
    assert_eq!(index_to_offset(size, 9), Offset::new(0, 2, 1));
}

#[test]
fn index_to_offset_on_an_empty_axis() {
    assert_eq!(index_to_offset(Size::new(0, 5, 0), 3), Offset::new(0, 3, 0));
    assert_eq!(index_to_offset(Size::new(0, 5, 2), 3), Offset::new(0, 1, 1));
    assert_eq!(index_to_offset(Size::new(2, 0, 0), 3), Offset::new(1, 1, 0));
}

#[test]
fn normalize_takes_corners_in_any_order() {
    let a = Coordinate::new(5, -2, 7);
    let b = Coordinate::new(1, 3, 7);
    let r = normalize(a, b);
    assert_eq!(r, normalize(b, a));
    assert_eq!(r.origin, Coordinate::new(1, -2, 7));
    assert_eq!(r.size, Size::new(4, 5, 0));
    assert_eq!(r.bound(), Coordinate::new(5, 3, 7));
}

#[test]
fn normalize_of_one_corner_is_empty() {
    let a = Coordinate::new(-4, 9, 0);
    let r = normalize(a, a);
    assert_eq!(r.origin, a);
    assert_eq!(r.size, Size::new(0, 0, 0));
    assert_eq!(r.size.volume(), 0);
    assert_eq!(r.bound(), a);
}

#[test]
fn normalize_spans_the_whole_axis() {
    let a = Coordinate::new(i32::MAX, i32::MIN, 0);
    let b = Coordinate::new(i32::MIN, i32::MAX, -1);
    let r = normalize(a, b);
    assert_eq!(r.origin, Coordinate::new(i32::MIN, i32::MIN, -1));
    assert_eq!(r.size, Size::new(u32::MAX, u32::MAX, 1));
    assert_eq!(r.bound(), Coordinate::new(i32::MAX, i32::MAX, 0));
}

#[test]
fn coordinate_min_is_per_axis() {
    let a = Coordinate::new(1, 8, -3);
    let b = Coordinate::new(2, 7, -3);
    assert_eq!(a.min(b), Coordinate::new(1, 7, -3));
    assert_eq!(b.min(a), Coordinate::new(1, 7, -3));
}

#[test]
fn offset_to_coordinate_adds() {
    let origin = Coordinate::new(10, 20, 30);
    assert_eq!(
        offset_to_coordinate(origin, Offset::new(1, 0, 2)),
        Coordinate::new(11, 20, 32)
    );
    assert_eq!(
        offset_to_coordinate(Coordinate::new(-5, -1, i32::MIN), Offset::new(3, 1, u32::MAX)),
        Coordinate::new(-2, 0, i32::MAX)
    );
}

#[test]
fn offset_to_coordinate_wraps_past_the_last_coordinate() {
    let origin = Coordinate::new(i32::MAX, 0, -1);
    assert_eq!(
        offset_to_coordinate(origin, Offset::new(1, u32::MAX, u32::MAX)),
        Coordinate::new(i32::MIN, -1, -2)
    );
}

#[test]
fn volume_is_the_product() {
    assert_eq!(Size::new(2, 3, 4).volume(), 24);
    assert_eq!(Size::new(2, 0, 4).volume(), 0);
    assert_eq!(Size::new(2, 3, 4).checked_volume(), Some(24));
    assert_eq!(Size::new(0, u32::MAX, u32::MAX).checked_volume(), Some(0));
    assert_eq!(
        Size::new(u32::MAX, u32::MAX, 1).checked_volume(),
        (u32::MAX as usize).checked_mul(u32::MAX as usize)
    );
}

#[test]
fn volume_that_fits_no_word_is_refused() {
    assert_eq!(Size::new(u32::MAX, u32::MAX, u32::MAX).checked_volume(), None);
}

#[test]
fn bound_is_origin_plus_size() {
    let r = Region::new(Coordinate::new(10, 20, 30), Size::new(2, 1, 2));
    assert_eq!(r.bound(), Coordinate::new(12, 21, 32));
}
