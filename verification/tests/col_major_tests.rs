use poisson::col_major::{checked_product, in_bounds, offset, ColMajorView, ColMajorViewMut, ViewError};

#[test]
fn view_accepts_matching_buffer() {
    let data: Vec<u32> = (0..24).collect();
    let view = ColMajorView::try_new(&data, [2, 3, 4]).unwrap();
    assert_eq!(view.shape(), &[2, 3, 4]);
    assert_eq!(view.as_slice().len(), 24);
    // Offset of [1, 2, 3] = 1 + 2 * (2 + 3 * 3) = 23.
    assert_eq!(view.get([1, 2, 3]), Some(&23));
    assert_eq!(view.get([0, 1, 0]), Some(&2));
    assert_eq!(view.get([2, 0, 0]), None);
    assert_eq!(view.get([0, 3, 0]), None);
    assert_eq!(*view.get_unchecked([1, 0, 1]), 7);
    assert_eq!(view[[0, 0, 2]], 12);
}

#[test]
fn view_refusals() {
    let data = vec![0u8; 5];
    match ColMajorView::try_new(&data, [2, 3]) {
        Err(e) => assert_eq!(e, ViewError::LengthMismatch { expected: 6, actual: 5 }),
        Ok(_) => panic!("a short buffer was accepted"),
    }
    match ColMajorView::try_new(&data, [usize::MAX, 2, 1]) {
        Err(e) => assert_eq!(e, ViewError::ShapeProductOverflow),
        Ok(_) => panic!("an overflowing shape was accepted"),
    }
    // The true product decides: a zero extent makes the product 0 even after
    // an overflowing prefix.
    assert_eq!(checked_product(&[usize::MAX, 2, 0]), Ok(0));
    let empty: [u8; 0] = [];
    let view = ColMajorView::try_new(&empty, [usize::MAX, 2, 0]).unwrap();
    assert_eq!(view.shape(), &[usize::MAX, 2, 0]);
    assert_eq!(view.get([0, 0, 0]), None);
    assert_eq!(checked_product(&[usize::MAX, 2]), Err(ViewError::ShapeProductOverflow));
    assert_eq!(checked_product(&[usize::MAX, 1]), Ok(usize::MAX));
    assert_eq!(checked_product(&[3, 0, 5]), Ok(0));
    assert_eq!(checked_product::<0>(&[]), Ok(1));
}

#[test]
fn rank_zero_view_holds_one_element() {
    let data = [42i64];
    let view = ColMajorView::<i64, 0>::try_new(&data, []).unwrap();
    assert_eq!(view.get([]), Some(&42));
    let lanes = view.axis0_lanes();
    assert_eq!(lanes.len(), 1);
    assert_eq!(lanes[0], &[42]);
}

#[test]
fn offsets_are_column_major() {
    assert_eq!(offset(&[3, 4], [2, 1]), 5);
    assert_eq!(offset(&[3, 4], [0, 3]), 9);
    assert_eq!(offset(&[5, 1, 2], [4, 0, 1]), 9);
    assert!(in_bounds(&[3, 4], [2, 3]));
    assert!(!in_bounds(&[3, 4], [3, 0]));
    assert!(!in_bounds(&[3, 0], [0, 0]));
}

#[test]
fn lanes_tile_the_buffer() {
    let data: Vec<u16> = (0..12).collect();
    let view = ColMajorView::try_new(&data, [3, 4]).unwrap();
    let lanes = view.axis0_lanes();
    assert_eq!(lanes.len(), 4);
    assert_eq!(lanes[0], &[0, 1, 2]);
    assert_eq!(lanes[3], &[9, 10, 11]);
    assert_eq!(view.axis0_lane(2), Some(&[6u16, 7, 8][..]));
    assert_eq!(view.axis0_lane(4), None);
    assert_eq!(view.axis0_lane(usize::MAX), None);
    assert_eq!(view.axis0_lane_unchecked(1), &[3, 4, 5]);
    // Element [i0, rest] is entry i0 of lane offset(rest).
    assert_eq!(view.get([1, 3]), Some(&lanes[3][1]));
}

#[test]
fn empty_first_extent_has_no_lanes() {
    let data: Vec<u8> = Vec::new();
    let view = ColMajorView::try_new(&data, [0, 7]).unwrap();
    assert_eq!(view.axis0_lanes().len(), 0);
    assert_eq!(view.axis0_lane(5), Some(&[][..]));
}

#[test]
fn mutable_view_writes_through() {
    let mut data = vec![0i32; 6];
    {
        let mut view = ColMajorViewMut::try_new(&mut data, [2, 3]).unwrap();
        *view.get_mut([1, 2]).unwrap() = 9;
        assert!(view.get_mut([2, 0]).is_none());
        *view.get_unchecked_mut([0, 1]) = 4;
        assert_eq!(view.get([1, 2]), Some(&9));
        assert_eq!(*view.get_unchecked([0, 1]), 4);
        assert_eq!(view[[0, 1]], 4);
        view.axis0_lane_mut(0).unwrap()[1] = 3;
        assert!(view.axis0_lane_mut(3).is_none());
        view.axis0_lane_unchecked_mut(2)[0] = 8;
        for (k, lane) in view.axis0_lanes_mut().into_iter().enumerate() {
            lane[0] += 10 * k as i32;
        }
        assert_eq!(view.axis0_lanes().len(), 3);
        assert_eq!(view.axis0_lane(1), Some(&[14, 0][..]));
        assert_eq!(view.axis0_lane_unchecked(0), &[0, 3]);
        view.as_mut_slice()[1] += 1;
        assert_eq!(view.shape(), &[2, 3]);
        assert_eq!(view.as_slice(), &[0, 4, 14, 0, 28, 9]);
    }
    assert_eq!(data, vec![0, 4, 14, 0, 28, 9]);
}

#[test]
fn mutable_view_refusals() {
    let mut data = vec![0u8; 4];
    match ColMajorViewMut::try_new(&mut data, [2, 3]) {
        Err(e) => assert_eq!(e, ViewError::LengthMismatch { expected: 6, actual: 4 }),
        Ok(_) => panic!("a short buffer was accepted"),
    }
    match ColMajorViewMut::try_new(&mut data, [usize::MAX, usize::MAX]) {
        Err(e) => assert_eq!(e, ViewError::ShapeProductOverflow),
        Ok(_) => panic!("an overflowing shape was accepted"),
    }
}

#[test]
fn offsets_cover_every_position_once() {
    let shape = [3usize, 2, 4];
    let mut seen = vec![0u32; 24];
    for c in 0..4 {
        for b in 0..2 {
            for a in 0..3 {
                seen[offset(&shape, [a, b, c])] += 1;
            }
        }
    }
    assert!(seen.iter().all(|&count| count == 1));
}

#[test]
fn writable_lanes_concatenate_to_the_buffer() {
    let mut data: Vec<i32> = (0..12).collect();
    {
        let mut view = ColMajorViewMut::try_new(&mut data, [3, 2, 2]).unwrap();
        let mut lanes = view.axis0_lanes_mut();
        assert_eq!(lanes.len(), 4);
        lanes[1].copy_from_slice(&[-1, -2, -3]);
        lanes[3][2] = 99;
        assert_eq!(view.shape(), &[3, 2, 2]);
        assert_eq!(view.as_slice(), &[0, 1, 2, -1, -2, -3, 6, 7, 8, 9, 10, 99]);
    }
    assert_eq!(data, vec![0, 1, 2, -1, -2, -3, 6, 7, 8, 9, 10, 99]);
}
