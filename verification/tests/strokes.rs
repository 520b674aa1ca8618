use freehand::{Bitmap, StrokeAccumulator};

const RED: (u8, u8, u8, u8) = (255, 0, 0, 255);

fn pixel_of(bm: &Bitmap, w: u32, x: u32, y: u32) -> (u8, u8, u8, u8) {
    let bytes = bm.raw_bytes();
    let idx = 4 * (y as usize * w as usize + x as usize);
    (bytes[idx], bytes[idx + 1], bytes[idx + 2], bytes[idx + 3])
}

fn drawn(bm: &Bitmap, w: u32, h: u32) -> Vec<(u32, u32)> {
    let mut out = Vec::new();
    for y in 0..h {
        for x in 0..w {
            if pixel_of(bm, w, x, y) == RED {
                out.push((x, y));
            }
        }
    }
    out
}

#[test]
fn single_sample_marks_one_pixel() {
    let mut bm = Bitmap::new(16, 16);
    let mut acc = StrokeAccumulator::new();
    acc.set_button(true);
    acc.pointer_moved(1, 1);
    acc.tick(&mut bm);
    assert_eq!(drawn(&bm, 16, 16), vec![(1, 1)]);
    assert_eq!(acc.anchor(), Some((1, 1)));
}

#[test]
fn stroke_continues_across_ticks_without_gap() {
    let mut bm = Bitmap::new(16, 16);
    let mut acc = StrokeAccumulator::new();
    acc.set_button(true);
    acc.pointer_moved(1, 1);
    acc.tick(&mut bm);
    acc.pointer_moved(10, 10);
    acc.tick(&mut bm);
    // the second tick connects the anchor (1,1) to (10,10): a 45-degree
    // segment whose pixels are exactly the diagonal, with no gap at the
    // shared endpoint
    let expected: Vec<(u32, u32)> = (1..=10).map(|k| (k, k)).collect();
    assert_eq!(drawn(&bm, 16, 16), expected);
    let touched = drawn(&bm, 16, 16);
    for pair in touched.windows(2) {
        let (x0, y0) = pair[0];
        let (x1, y1) = pair[1];
        assert!(x1 - x0 <= 1 && y1 - y0 <= 1);
    }
}

#[test]
fn release_then_empty_tick_resets_anchor() {
    let mut bm = Bitmap::new(16, 16);
    let mut acc = StrokeAccumulator::new();
    acc.set_button(true);
    acc.pointer_moved(1, 1);
    acc.tick(&mut bm);
    acc.set_button(false);
    acc.tick(&mut bm);
    assert_eq!(acc.anchor(), None);
    // a fresh press and single sample marks an isolated pixel, with no line
    // back to the old stroke's end
    acc.set_button(true);
    acc.pointer_moved(5, 5);
    acc.tick(&mut bm);
    assert_eq!(drawn(&bm, 16, 16), vec![(1, 1), (5, 5)]);
}

#[test]
fn moves_are_ignored_while_button_is_up() {
    let mut bm = Bitmap::new(8, 8);
    let mut acc = StrokeAccumulator::new();
    acc.pointer_moved(2, 2);
    acc.tick(&mut bm);
    assert_eq!(drawn(&bm, 8, 8), Vec::new());
    assert_eq!(acc.anchor(), None);
}

#[test]
fn burst_of_samples_draws_connected_segments() {
    let mut bm = Bitmap::new(8, 8);
    let mut acc = StrokeAccumulator::new();
    acc.set_button(true);
    acc.pointer_moved(0, 0);
    acc.pointer_moved(3, 0);
    acc.pointer_moved(3, 3);
    acc.tick(&mut bm);
    let expected = vec![
        (0, 0),
        (1, 0),
        (2, 0),
        (3, 0),
        (3, 1),
        (3, 2),
        (3, 3),
    ];
    assert_eq!(drawn(&bm, 8, 8), expected);
    assert_eq!(acc.anchor(), Some((3, 3)));
}

#[test]
fn held_button_keeps_anchor_through_empty_tick() {
    let mut bm = Bitmap::new(8, 8);
    let mut acc = StrokeAccumulator::new();
    acc.set_button(true);
    acc.pointer_moved(2, 2);
    acc.tick(&mut bm);
    acc.tick(&mut bm);
    assert_eq!(acc.anchor(), Some((2, 2)));
    assert_eq!(drawn(&bm, 8, 8), vec![(2, 2)]);
}
