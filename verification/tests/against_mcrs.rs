use mcutils::geometry::{index_to_offset, offset_to_coordinate, Coordinate, Offset, Size};

#[test]
fn offsets_agree_with_mcrs() {
    for (x, y, z) in [(1u32, 1u32, 1u32), (2, 1, 2), (3, 4, 5), (7, 2, 1), (1, 9, 6), (16, 16, 16)] {
        let ours = Size::new(x, y, z);
        let theirs = mcrs::Size::new(x, y, z);
        assert_eq!(ours.volume(), theirs.volume());
        for i in 0..theirs.volume() + 5 {
            let at = index_to_offset(ours, i);
            let expected = theirs.index_to_offset(i);
            assert_eq!(
                (at.x as i64, at.y as i64, at.z as i64),
                (expected.x as i64, expected.y as i64, expected.z as i64)
            );
            if i < theirs.volume() {
                assert_eq!(theirs.offset_to_index(expected), i);
            }
        }
    }
}

#[test]
fn places_agree_with_mcrs() {
    let origin = Coordinate::new(-40, 64, 1000);
    let theirs = mcrs::Coordinate::new(-40, 64, 1000);
    let size = mcrs::Size::new(4, 3, 2);
    for i in 0..size.volume() {
        let expected = theirs + size.index_to_offset(i);
        let at = offset_to_coordinate(origin, index_to_offset(Size::new(4, 3, 2), i));
        assert_eq!((at.x, at.y, at.z), (expected.x, expected.y, expected.z));
    }
}

#[test]
fn minimum_agrees_with_mcrs() {
    let pairs = [((1, 2, 3), (3, 2, 1)), ((-5, 0, 9), (-6, 1, 9)), ((i32::MAX, i32::MIN, 0), (0, 0, 0))];
    for (a, b) in pairs {
        let ours = Coordinate::new(a.0, a.1, a.2).min(Coordinate::new(b.0, b.1, b.2));
        let theirs = mcrs::Coordinate::new(a.0, a.1, a.2).min(mcrs::Coordinate::new(b.0, b.1, b.2));
        assert_eq!((ours.x, ours.y, ours.z), (theirs.x, theirs.y, theirs.z));
    }
}

#[test]
fn large_extents_keep_their_offsets() {
    let size = Size::new(u32::MAX, 1, u32::MAX);
    let at = index_to_offset(size, usize::MAX / 2);
    let z = (usize::MAX / 2) % (u32::MAX as usize);
    let x = ((usize::MAX / 2) / (u32::MAX as usize)) % (u32::MAX as usize);
    assert_eq!(at, Offset::new(x as u32, 0, z as u32));
}
