use tiny_renderer::line::{draw_line, line_clip, line_pixels};
use tiny_renderer::rgb_image::RgbCanvas;

fn sorted(mut v: Vec<(i64, i64)>) -> Vec<(i64, i64)> {
    v.sort();
    v
}

fn pixel(raw: &[u8], width: usize, x: usize, y: usize) -> [u8; 3] {
    let i = (y * width + x) * 3;
    [raw[i], raw[i + 1], raw[i + 2]]
}

#[test]
fn horizontal_line_plots_every_x() {
    let pts = line_pixels((10, 50), (90, 50));
    let expected: Vec<(i64, i64)> = (10..=90).map(|x| (x, 50)).collect();
    assert_eq!(pts, expected);
}

#[test]
fn vertical_line_plots_every_y() {
    let pts = line_pixels((50, 90), (50, 10));
    let expected: Vec<(i64, i64)> = (10..=90).map(|y| (50, y)).collect();
    assert_eq!(pts, expected);
}

#[test]
fn steep_line_plots_every_y_with_rising_x() {
    let pts = line_pixels((10, 10), (60, 90));
    assert_eq!(pts.len(), 81);
    for (i, p) in pts.iter().enumerate() {
        assert_eq!(p.1, 10 + i as i64);
    }
    for w in pts.windows(2) {
        assert!(w[0].0 <= w[1].0);
        assert!(w[1].0 - w[0].0 <= 1);
    }
    assert_eq!(pts[0], (10, 10));
    assert_eq!(pts[80], (60, 90));
}

#[test]
fn shallow_line_rounds_halves_up() {
    let pts = line_pixels((0, 0), (4, 2));
    assert_eq!(pts, vec![(0, 0), (1, 1), (2, 1), (3, 2), (4, 2)]);
}

#[test]
fn falling_line_rounds_toward_start() {
    let pts = line_pixels((0, 0), (4, -2));
    assert_eq!(pts, vec![(0, 0), (1, -1), (2, -1), (3, -2), (4, -2)]);
}

#[test]
fn steep_falling_line_exact_pixels() {
    let pts = line_pixels((0, 0), (2, -4));
    assert_eq!(pts, vec![(0, 0), (1, -1), (1, -2), (2, -3), (2, -4)]);
}

#[test]
fn single_point_line() {
    assert_eq!(line_pixels((5, 7), (5, 7)), vec![(5, 7)]);
}

#[test]
fn line_direction_does_not_matter_for_all_slopes() {
    let cases = [
        ((10, 10), (90, 60)),
        ((10, 10), (60, 90)),
        ((10, 90), (90, 40)),
        ((10, 90), (40, 10)),
        ((10, 50), (90, 50)),
        ((50, 10), (50, 90)),
        ((10, 10), (90, 90)),
        ((10, 90), (90, 10)),
        ((0, 0), (7, 3)),
        ((0, 0), (3, -7)),
    ];
    for (a, b) in cases {
        assert_eq!(sorted(line_pixels(a, b)), sorted(line_pixels(b, a)));
    }
}

#[test]
fn clip_rejects_segment_outside() {
    assert_eq!(line_clip((200, 200), (300, 300), (0, 0), (99, 99)), None);
}

#[test]
fn clip_keeps_segment_inside() {
    assert_eq!(
        line_clip((10, 20), (30, 40), (0, 0), (99, 99)),
        Some(((10, 20), (30, 40)))
    );
}

#[test]
fn clip_cuts_at_right_edge() {
    assert_eq!(
        line_clip((50, 50), (150, 50), (0, 0), (99, 99)),
        Some(((50, 50), (99, 50)))
    );
}

#[test]
fn clip_cuts_at_bottom_edge() {
    assert_eq!(
        line_clip((50, 50), (50, -20), (0, 0), (99, 99)),
        Some(((50, 50), (50, 0)))
    );
}

#[test]
fn clip_cuts_diagonal_at_corner() {
    assert_eq!(
        line_clip((50, 50), (150, 150), (0, 0), (99, 99)),
        Some(((50, 50), (99, 99)))
    );
}

#[test]
fn clip_cuts_both_ends() {
    assert_eq!(
        line_clip((-50, 10), (150, 10), (0, 0), (99, 99)),
        Some(((0, 10), (99, 10)))
    );
}

#[test]
fn clip_cuts_top_edge_with_slope() {
    // crosses y = 99 at x = 10 + 80 * 49 / 100 = 49.2, whose floor is 49
    assert_eq!(
        line_clip((10, 50), (90, 150), (0, 0), (99, 99)),
        Some(((10, 50), (49, 99)))
    );
}

#[test]
fn clip_rejects_segment_passing_a_corner() {
    assert_eq!(line_clip((-10, 5), (5, -10), (0, 0), (99, 99)), None);
}

#[test]
fn image_line_is_drawn_and_others_stay_black() {
    let mut img = RgbCanvas::new(100, 100);
    draw_line((10, 50), (90, 50), &mut img, [0, 255, 0]);
    assert_eq!(img.dimensions(), (100, 100));
    let raw = img.into_raw();
    assert_eq!(raw.len(), 100 * 100 * 3);
    for x in 0..100 {
        let expected = if (10..=90).contains(&x) { [0, 255, 0] } else { [0, 0, 0] };
        assert_eq!(pixel(&raw, 100, x, 50), expected);
        assert_eq!(pixel(&raw, 100, x, 49), [0, 0, 0]);
    }
}

#[test]
fn image_line_outside_draws_nothing() {
    let mut img = RgbCanvas::new(100, 100);
    draw_line((200, 200), (300, 300), &mut img, [255, 255, 255]);
    assert!(img.into_raw().iter().all(|b| *b == 0));
}

#[test]
fn image_line_is_clipped_to_the_image() {
    let mut img = RgbCanvas::new(100, 100);
    draw_line((50, 20), (150, 20), &mut img, [1, 2, 3]);
    let raw = img.into_raw();
    for x in 0..100 {
        let expected = if x >= 50 { [1, 2, 3] } else { [0, 0, 0] };
        assert_eq!(pixel(&raw, 100, x, 20), expected);
    }
}

#[test]
fn image_line_both_directions_same_pixels() {
    let mut a = RgbCanvas::new(100, 100);
    let mut b = RgbCanvas::new(100, 100);
    draw_line((10, 90), (40, 10), &mut a, [0, 255, 0]);
    draw_line((40, 10), (10, 90), &mut b, [0, 255, 0]);
    assert_eq!(a.into_raw(), b.into_raw());
}

#[test]
fn unclipped_line_draws_endpoints() {
    let mut img = RgbCanvas::new(100, 100);
    tiny_renderer::line::line((10, 10), (60, 90), &mut img, [9, 8, 7]);
    let raw = img.into_raw();
    assert_eq!(pixel(&raw, 100, 10, 10), [9, 8, 7]);
    assert_eq!(pixel(&raw, 100, 60, 90), [9, 8, 7]);
    let lit = (0..100 * 100).filter(|i| raw[i * 3] == 9).count();
    assert_eq!(lit, 81);
}

#[test]
fn clip_cuts_left_edge_at_floor_of_crossing() {
    // crosses x = 0 at y = 50 + 41 * 50 / 100 = 70.5
    assert_eq!(
        line_clip((50, 50), (-50, 91), (0, 0), (99, 99)),
        Some(((50, 50), (0, 70)))
    );
    assert_eq!(
        line_clip((-50, 91), (50, 50), (0, 0), (99, 99)),
        Some(((0, 70), (50, 50)))
    );
}

#[test]
fn clip_at_largest_coordinates() {
    let far = 1i64 << 40;
    assert_eq!(
        line_clip((-far, 7), (far, 7), (0, 0), (99, 99)),
        Some(((0, 7), (99, 7)))
    );
    assert_eq!(
        line_clip((-far, -far), (far, far), (0, 0), (99, 99)),
        Some(((0, 0), (99, 99)))
    );
}

#[test]
fn clip_rejects_segment_missing_a_corner() {
    // runs past the top-right corner of the rectangle without touching it
    assert_eq!(line_clip((104, 96), (94, 103), (0, 0), (99, 99)), None);
    assert_eq!(line_clip((94, 103), (104, 96), (0, 0), (99, 99)), None);
}

#[test]
fn clip_keeps_segment_touching_a_corner() {
    // passes exactly through the corner (99, 99)
    assert_eq!(
        line_clip((98, 100), (100, 98), (0, 0), (99, 99)),
        Some(((99, 99), (99, 99)))
    );
}

#[test]
fn image_line_missing_a_corner_draws_nothing() {
    let mut img = RgbCanvas::new(100, 100);
    draw_line((104, 96), (94, 103), &mut img, [255, 255, 255]);
    assert!(img.into_raw().iter().all(|b| *b == 0));
}
