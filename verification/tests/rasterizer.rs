use freehand::Bitmap;

fn px_at(bytes: &[u8], w: u32, x: u32, y: u32) -> (u8, u8, u8, u8) {
    let idx = 4 * (y as usize * w as usize + x as usize);
    (bytes[idx], bytes[idx + 1], bytes[idx + 2], bytes[idx + 3])
}

fn red_pixels(bm: &Bitmap, w: u32, h: u32, color: (u8, u8, u8, u8)) -> Vec<(u32, u32)> {
    let bytes = bm.raw_bytes();
    let mut out = Vec::new();
    for y in 0..h {
        for x in 0..w {
            if px_at(bytes, w, x, y) == color {
                out.push((x, y));
            }
        }
    }
    out
}

#[test]
fn new_buffer_is_white() {
    let bm = Bitmap::new(3, 2);
    let bytes = bm.raw_bytes();
    assert_eq!(bytes.len(), 3 * 2 * 4);
    assert!(bytes.iter().all(|&b| b == 255));
}

#[test]
fn new_zero_dimensions_is_empty() {
    let bm = Bitmap::new(0, 7);
    assert_eq!(bm.raw_bytes().len(), 0);
}

#[test]
fn set_pixel_roundtrip() {
    let mut bm = Bitmap::new(3, 2);
    bm.set_pixel(1, 1, 10, 20, 30, 40);
    let bytes = bm.raw_bytes();
    assert_eq!(px_at(bytes, 3, 1, 1), (10, 20, 30, 40));
    for y in 0..2 {
        for x in 0..3 {
            if (x, y) != (1, 1) {
                assert_eq!(px_at(bytes, 3, x, y), (255, 255, 255, 255));
            }
        }
    }
}

#[test]
fn set_pixel_out_of_bounds_is_noop() {
    let mut bm = Bitmap::new(3, 2);
    bm.set_pixel(-1, 0, 1, 2, 3, 4);
    bm.set_pixel(3, 0, 1, 2, 3, 4);
    bm.set_pixel(0, 2, 1, 2, 3, 4);
    bm.set_pixel(0, -1, 1, 2, 3, 4);
    assert!(bm.raw_bytes().iter().all(|&b| b == 255));
}

#[test]
fn horizontal_line_sets_exact_pixels() {
    let mut bm = Bitmap::new(8, 3);
    bm.draw_line((0, 0), (5, 0), 7, 8, 9);
    let touched = red_pixels(&bm, 8, 3, (7, 8, 9, 255));
    let expected: Vec<(u32, u32)> = (0..=5).map(|x| (x, 0)).collect();
    assert_eq!(touched, expected);
    // every other pixel is still white
    let bytes = bm.raw_bytes();
    for y in 0..3 {
        for x in 0..8 {
            if !(y == 0 && x <= 5) {
                assert_eq!(px_at(bytes, 8, x, y), (255, 255, 255, 255));
            }
        }
    }
}

#[test]
fn degenerate_line_sets_one_pixel() {
    let mut bm = Bitmap::new(4, 4);
    bm.draw_line((0, 0), (0, 0), 1, 2, 3);
    let touched = red_pixels(&bm, 4, 4, (1, 2, 3, 255));
    assert_eq!(touched, vec![(0, 0)]);
}

#[test]
fn diagonal_line_is_gapless_staircase() {
    let mut bm = Bitmap::new(6, 6);
    bm.draw_line((0, 0), (4, 4), 9, 9, 9);
    let touched = red_pixels(&bm, 6, 6, (9, 9, 9, 255));
    let expected: Vec<(u32, u32)> = (0..=4).map(|k| (k, k)).collect();
    assert_eq!(touched, expected);
    assert_eq!(touched.len(), 5);
    for pair in touched.windows(2) {
        let (x0, y0) = pair[0];
        let (x1, y1) = pair[1];
        assert!(x1 - x0 <= 1 && y1 - y0 <= 1);
    }
}

#[test]
fn gentle_slope_rounds_half_up_forward() {
    let mut bm = Bitmap::new(6, 3);
    bm.draw_line((0, 0), (5, 2), 1, 1, 1);
    let touched = red_pixels(&bm, 6, 3, (1, 1, 1, 255));
    assert_eq!(touched, vec![(0, 0), (1, 0), (2, 1), (3, 1), (4, 2), (5, 2)]);
}

#[test]
fn half_ties_round_up_when_stepping_positive() {
    let mut bm = Bitmap::new(3, 2);
    bm.draw_line((0, 0), (2, 1), 1, 1, 1);
    let touched = red_pixels(&bm, 3, 2, (1, 1, 1, 255));
    assert_eq!(touched, vec![(0, 0), (1, 1), (2, 1)]);
}

#[test]
fn half_ties_round_down_when_stepping_negative() {
    let mut bm = Bitmap::new(3, 2);
    bm.draw_line((2, 1), (0, 0), 1, 1, 1);
    let touched = red_pixels(&bm, 3, 2, (1, 1, 1, 255));
    assert_eq!(touched, vec![(0, 0), (1, 0), (2, 1)]);
}

#[test]
fn steep_line_steps_along_y() {
    let mut bm = Bitmap::new(3, 8);
    bm.draw_line((0, 0), (2, 7), 4, 5, 6);
    let touched = red_pixels(&bm, 3, 8, (4, 5, 6, 255));
    let expected = vec![
        (0, 0),
        (0, 1),
        (1, 2),
        (1, 3),
        (1, 4),
        (1, 5),
        (2, 6),
        (2, 7),
    ];
    assert_eq!(touched, expected);
}

#[test]
fn out_of_bounds_endpoints_are_clipped() {
    let mut bm = Bitmap::new(4, 4);
    bm.draw_line((-2, 1), (6, 1), 1, 1, 1);
    let touched = red_pixels(&bm, 4, 4, (1, 1, 1, 255));
    let expected: Vec<(u32, u32)> = (0..4).map(|x| (x, 1)).collect();
    assert_eq!(touched, expected);
}

#[test]
fn resize_clears_to_opaque_white() {
    let mut bm = Bitmap::new(3, 2);
    bm.draw_line((0, 0), (2, 1), 0, 0, 0);
    bm.resize(2, 3);
    let bytes = bm.raw_bytes();
    assert_eq!(bytes.len(), 2 * 3 * 4);
    assert!(bytes.iter().all(|&b| b == 255));
}
