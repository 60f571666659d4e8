use pixmap::{Color, OutOfBounds, Pixels};

const RED: Color = Color(255, 0, 0);
const GREEN: Color = Color(0, 255, 0);
const BLUE: Color = Color(0, 0, 255);

#[test]
fn named_colors() {
    assert_eq!(Color::black(), Color(0, 0, 0));
    assert_eq!(Color::white(), Color(255, 255, 255));
}

#[test]
fn new_buffer_is_black() {
    let pixels = Pixels::new(3, 2);
    assert_eq!(pixels.width(), 3);
    assert_eq!(pixels.height(), 2);
    for y in 0..2 {
        for x in 0..3 {
            assert_eq!(pixels.get(x, y), Color(0, 0, 0));
        }
    }
}

#[test]
fn empty_buffers_are_allowed() {
    for (width, height) in [(0, 0), (0, 5), (5, 0)] {
        let pixels = Pixels::new(width, height);
        assert_eq!(pixels.width(), width);
        assert_eq!(pixels.height(), height);
        assert_eq!(pixels.iter().collect().len(), 0);
        assert_eq!(
            pixels.try_get(0, 0),
            Err(OutOfBounds { x: 0, y: 0, width, height })
        );
    }
}

#[test]
fn set_replaces_one_pixel() {
    let mut pixels = Pixels::new(3, 2);
    pixels.set(1, 1, RED);
    for y in 0..2 {
        for x in 0..3 {
            let expected = if (x, y) == (1, 1) { RED } else { Color(0, 0, 0) };
            assert_eq!(pixels.get(x, y), expected);
        }
    }
    pixels.set(1, 1, GREEN);
    assert_eq!(pixels.get(1, 1), GREEN);
    assert_eq!(pixels.width(), 3);
    assert_eq!(pixels.height(), 2);
}

#[test]
fn pixels_are_stored_row_by_row() {
    let mut pixels = Pixels::new(3, 2);
    assert_eq!(pixels.idx(0, 0), Ok(0));
    assert_eq!(pixels.idx(2, 0), Ok(2));
    assert_eq!(pixels.idx(0, 1), Ok(3));
    assert_eq!(pixels.idx(2, 1), Ok(5));
    pixels.set(2, 1, BLUE);
    let all = pixels.iter().collect();
    assert_eq!(all[5], (2, 1, BLUE));
}

#[test]
fn inside_the_rectangle_access_succeeds() {
    let mut pixels = Pixels::new(4, 3);
    for y in 0..3 {
        for x in 0..4 {
            assert_eq!(pixels.idx(x, y), Ok(y * 4 + x));
            assert_eq!(pixels.try_set(x, y, Color(x as u8, y as u8, 9)), Ok(()));
            assert_eq!(pixels.try_get(x, y), Ok(Color(x as u8, y as u8, 9)));
        }
    }
}

#[test]
fn rows_beyond_the_last_are_out_of_bounds() {
    let mut pixels = Pixels::new(4, 3);
    let outside = OutOfBounds { x: 0, y: 3, width: 4, height: 3 };
    assert_eq!(pixels.idx(0, 3), Err(outside));
    assert_eq!(pixels.try_get(0, 3), Err(outside));
    assert_eq!(pixels.try_set(0, 3, RED), Err(outside));
    assert_eq!(
        pixels.try_get(2, 100),
        Err(OutOfBounds { x: 2, y: 100, width: 4, height: 3 })
    );
}

#[test]
fn columns_beyond_the_last_row_end_are_out_of_bounds() {
    let mut pixels = Pixels::new(4, 3);
    let outside = OutOfBounds { x: 4, y: 2, width: 4, height: 3 };
    assert_eq!(pixels.idx(4, 2), Err(outside));
    assert_eq!(pixels.try_get(4, 2), Err(outside));
    assert_eq!(pixels.try_set(4, 2, RED), Err(outside));
    assert_eq!(
        pixels.try_get(12, 0),
        Err(OutOfBounds { x: 12, y: 0, width: 4, height: 3 })
    );
}

#[test]
fn a_column_past_the_edge_does_not_reach_into_the_next_row() {
    let mut pixels = Pixels::new(3, 2);
    pixels.set(1, 1, RED);
    let outside = OutOfBounds { x: 4, y: 0, width: 3, height: 2 };
    assert_eq!(pixels.idx(4, 0), Err(outside));
    assert_eq!(pixels.try_get(4, 0), Err(outside));
    assert_eq!(pixels.try_set(4, 0, BLUE), Err(outside));
    assert_eq!(pixels.get(1, 1), RED);
}

#[test]
fn the_column_at_the_right_edge_is_out_of_bounds_in_every_row() {
    let mut pixels = Pixels::new(2, 2);
    for y in 0..2 {
        let outside = OutOfBounds { x: 2, y, width: 2, height: 2 };
        assert_eq!(pixels.idx(2, y), Err(outside));
        assert_eq!(pixels.try_get(2, y), Err(outside));
        assert_eq!(pixels.try_set(2, y, Color(255, 255, 255)), Err(outside));
    }
    assert_eq!(pixels.get(0, 1), Color(0, 0, 0));
    assert_eq!(
        pixels.iter().collect(),
        vec![
            (0, 0, Color(0, 0, 0)),
            (1, 0, Color(0, 0, 0)),
            (0, 1, Color(0, 0, 0)),
            (1, 1, Color(0, 0, 0)),
        ]
    );
}

#[test]
fn huge_coordinates_are_out_of_bounds() {
    let mut pixels = Pixels::new(3, 2);
    let max = usize::MAX;
    assert_eq!(
        pixels.idx(0, max),
        Err(OutOfBounds { x: 0, y: max, width: 3, height: 2 })
    );
    assert_eq!(
        pixels.idx(max, 1),
        Err(OutOfBounds { x: max, y: 1, width: 3, height: 2 })
    );
    assert_eq!(
        pixels.try_get(max, max),
        Err(OutOfBounds { x: max, y: max, width: 3, height: 2 })
    );
    assert_eq!(
        pixels.try_set(max, 0, RED),
        Err(OutOfBounds { x: max, y: 0, width: 3, height: 2 })
    );
}

#[test]
fn a_refused_write_changes_nothing() {
    let mut pixels = Pixels::new(2, 2);
    pixels.set(0, 0, RED);
    pixels.set(1, 1, GREEN);
    assert!(pixels.try_set(0, 2, BLUE).is_err());
    assert_eq!(
        pixels.iter().collect(),
        vec![
            (0, 0, RED),
            (1, 0, Color(0, 0, 0)),
            (0, 1, Color(0, 0, 0)),
            (1, 1, GREEN),
        ]
    );
}
