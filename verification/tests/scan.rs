use pixmap::{Color, Pixels};

fn numbered(width: usize, height: usize) -> Pixels {
    let mut pixels = Pixels::new(width, height);
    for y in 0..height {
        for x in 0..width {
            pixels.set(x, y, Color(x as u8, y as u8, (y * width + x) as u8));
        }
    }
    pixels
}

#[test]
fn scan_yields_every_pixel_once_in_row_major_order() {
    let (width, height) = (5, 4);
    let pixels = numbered(width, height);
    let all = pixels.iter().collect();
    assert_eq!(all.len(), width * height);
    for (i, (x, y, color)) in all.iter().enumerate() {
        assert_eq!(*x, i % width);
        assert_eq!(*y, i / width);
        assert_eq!(*color, pixels.get(*x, *y));
        assert_eq!(*color, Color(*x as u8, *y as u8, i as u8));
    }
    for y in 0..height {
        for x in 0..width {
            let hits = all.iter().filter(|t| t.0 == x && t.1 == y).count();
            assert_eq!(hits, 1);
        }
    }
}

#[test]
fn next_stops_after_the_last_pixel() {
    let pixels = numbered(2, 2);
    let mut scan = pixels.iter();
    assert_eq!(scan.next(), Some((0, 0, Color(0, 0, 0))));
    assert_eq!(scan.next(), Some((1, 0, Color(1, 0, 1))));
    assert_eq!(scan.next(), Some((0, 1, Color(0, 1, 2))));
    assert_eq!(scan.next(), Some((1, 1, Color(1, 1, 3))));
    assert_eq!(scan.next(), None);
    assert_eq!(scan.next(), None);
}

#[test]
fn scan_can_be_restarted() {
    let pixels = numbered(3, 1);
    let first = pixels.iter().collect();
    let second = pixels.iter().collect();
    assert_eq!(first, second);
    assert_eq!(first.len(), 3);
}

#[test]
fn collect_gives_what_is_left() {
    let pixels = numbered(3, 2);
    let mut scan = pixels.iter();
    scan.next();
    scan.next();
    let rest = scan.collect();
    assert_eq!(
        rest,
        vec![
            (2, 0, Color(2, 0, 2)),
            (0, 1, Color(0, 1, 3)),
            (1, 1, Color(1, 1, 4)),
            (2, 1, Color(2, 1, 5)),
        ]
    );
}

#[test]
fn scan_of_a_single_column() {
    let pixels = numbered(1, 3);
    assert_eq!(
        pixels.iter().collect(),
        vec![
            (0, 0, Color(0, 0, 0)),
            (0, 1, Color(0, 1, 1)),
            (0, 2, Color(0, 2, 2)),
        ]
    );
}

#[test]
fn scan_of_an_empty_buffer_yields_nothing() {
    let pixels = Pixels::new(0, 3);
    let mut scan = pixels.iter();
    assert_eq!(scan.next(), None);
    let pixels = Pixels::new(3, 0);
    let mut scan = pixels.iter();
    assert_eq!(scan.next(), None);
}
