use tiny_renderer::renderer::{
    depth_key, FillStrategy, Projection, RenderTarget, RendererSettings, Viewport, DEPTH_FAR,
};

fn pixel(t: &RenderTarget, x: usize, y: usize) -> [u8; 3] {
    let i = (y * t.viewport.width as usize + x) * 3;
    [t.frame_buffer[i], t.frame_buffer[i + 1], t.frame_buffer[i + 2]]
}

fn fragment(t: &mut RenderTarget, x: i64, y: i64, key: i32, color: [u8; 3]) {
    t.draw_fragment(x, y, key, color);
}

#[test]
fn viewport_new_keeps_fields() {
    let v = Viewport::new(-3, 4, 1024, 720);
    assert_eq!((v.x, v.y, v.width, v.height), (-3, 4, 1024, 720));
}

#[test]
fn pixel_index_is_relative_to_viewport() {
    let v = Viewport::new(10, 20, 4, 3);
    assert_eq!(v.pixel_index(10, 20), Some(0));
    assert_eq!(v.pixel_index(13, 22), Some(11));
    assert_eq!(v.pixel_index(14, 20), None);
    assert_eq!(v.pixel_index(9, 20), None);
    assert_eq!(v.pixel_index(10, 23), None);
}

#[test]
fn new_target_is_cleared() {
    let t = RenderTarget::new(Viewport::new(0, 0, 4, 3));
    assert_eq!(t.frame_buffer.len(), 36);
    assert_eq!(t.depth_buffer.len(), 12);
    assert!(t.frame_buffer.iter().all(|b| *b == 0));
    assert!(t.depth_buffer.iter().all(|d| *d == DEPTH_FAR));
}

#[test]
fn draw_pixel_inside_and_outside() {
    let mut t = RenderTarget::new(Viewport::new(0, 0, 4, 3));
    assert!(t.draw_pixel(2, 1, [10, 20, 30]));
    assert_eq!(&t.frame_buffer[18..21], &[10, 20, 30]);
    assert!(!t.draw_pixel(4, 1, [1, 1, 1]));
    assert!(!t.draw_pixel(-1, 0, [1, 1, 1]));
    assert_eq!(t.frame_buffer.iter().filter(|b| **b != 0).count(), 3);
}

#[test]
fn draw_pixel_with_offset_viewport() {
    let mut t = RenderTarget::new(Viewport::new(5, 5, 2, 2));
    assert!(t.draw_pixel(6, 6, [7, 7, 7]));
    assert_eq!(&t.frame_buffer[9..12], &[7, 7, 7]);
    assert!(!t.draw_pixel(0, 0, [7, 7, 7]));
}

#[test]
fn clear_resets_both_buffers() {
    let mut t = RenderTarget::new(Viewport::new(0, 0, 3, 3));
    t.draw_pixel(1, 1, [9, 9, 9]);
    t.depth_test(1, 1, 5);
    t.clear();
    assert!(t.frame_buffer.iter().all(|b| *b == 0));
    assert!(t.depth_buffer.iter().all(|d| *d == DEPTH_FAR));
}

#[test]
fn depth_test_keeps_nearest() {
    let mut t = RenderTarget::new(Viewport::new(0, 0, 2, 2));
    assert!(t.depth_test(1, 0, 100));
    assert_eq!(t.depth_buffer[1], 100);
    assert!(!t.depth_test(1, 0, 50));
    assert!(!t.depth_test(1, 0, 100));
    assert!(t.depth_test(1, 0, 200));
    assert_eq!(t.depth_buffer[1], 200);
    assert!(!t.depth_test(2, 0, 300));
}

#[test]
fn depth_order_does_not_change_the_frame() {
    let near = depth_key((0.5f32).to_bits());
    let far = depth_key((-0.5f32).to_bits());
    let mut a = RenderTarget::new(Viewport::new(0, 0, 3, 1));
    let mut b = RenderTarget::new(Viewport::new(0, 0, 3, 1));
    for x in 0..3 {
        fragment(&mut a, x, 0, far, [255, 0, 0]);
    }
    for x in 1..3 {
        fragment(&mut a, x, 0, near, [0, 0, 255]);
    }
    for x in 1..3 {
        fragment(&mut b, x, 0, near, [0, 0, 255]);
    }
    for x in 0..3 {
        fragment(&mut b, x, 0, far, [255, 0, 0]);
    }
    assert_eq!(a.frame_buffer, b.frame_buffer);
    assert_eq!(a.depth_buffer, b.depth_buffer);
    assert_eq!(pixel(&a, 0, 0), [255, 0, 0]);
    assert_eq!(pixel(&a, 1, 0), [0, 0, 255]);
}

#[test]
fn depth_keys_order_as_floats() {
    let values = [f32::MIN, -2.0, -1.0, -0.5, 0.0, 0.25, 1.0, 1000.0, f32::MAX];
    for w in values.windows(2) {
        assert!(depth_key(w[0].to_bits()) < depth_key(w[1].to_bits()));
    }
    assert_eq!(depth_key(f32::MIN.to_bits()), DEPTH_FAR);
    assert_eq!(depth_key(0), 0);
    assert_eq!(depth_key(1.0f32.to_bits()), 0x3F80_0000);
    assert_eq!(depth_key((-1.0f32).to_bits()), -0x3F80_0000);
    assert_eq!(depth_key((-0.0f32).to_bits()), depth_key(0.0f32.to_bits()));
}

#[test]
fn target_line_outside_viewport_draws_nothing() {
    let mut t = RenderTarget::new(Viewport::new(0, 0, 100, 100));
    t.draw_line((200, 200), (300, 300), [255, 255, 255]);
    assert!(t.frame_buffer.iter().all(|b| *b == 0));
}

#[test]
fn target_line_is_cut_at_viewport_edge() {
    let mut t = RenderTarget::new(Viewport::new(0, 0, 100, 100));
    t.draw_line((50, 10), (150, 10), [255, 255, 255]);
    for x in 0..100 {
        let expected = if x >= 50 { [255, 255, 255] } else { [0, 0, 0] };
        assert_eq!(pixel(&t, x, 10), expected);
    }
    assert_eq!(t.frame_buffer.iter().filter(|b| **b != 0).count(), 50 * 3);
}

#[test]
fn target_line_direction_does_not_matter() {
    let mut a = RenderTarget::new(Viewport::new(0, 0, 100, 100));
    let mut b = RenderTarget::new(Viewport::new(0, 0, 100, 100));
    a.draw_line((10, 10), (90, 60), [0, 255, 0]);
    b.draw_line((90, 60), (10, 10), [0, 255, 0]);
    assert_eq!(a.frame_buffer, b.frame_buffer);
}

#[test]
fn empty_viewport_draws_nothing() {
    let mut t = RenderTarget::new(Viewport::new(0, 0, 0, 5));
    t.draw_line((0, 0), (3, 3), [1, 1, 1]);
    assert!(t.frame_buffer.is_empty());
}

#[test]
fn wireframe_draws_three_edges() {
    let mut t = RenderTarget::new(Viewport::new(0, 0, 20, 20));
    t.draw_wireframe([(2, 2), (12, 2), (2, 12)], [255, 255, 255]);
    for x in 2..=12 {
        assert_eq!(pixel(&t, x, 2), [255, 255, 255]);
    }
    for y in 2..=12 {
        assert_eq!(pixel(&t, 2, y), [255, 255, 255]);
    }
    for k in 0..=10 {
        assert_eq!(pixel(&t, 12 - k, 2 + k), [255, 255, 255]);
    }
    assert_eq!(pixel(&t, 5, 5), [0, 0, 0]);
}

#[test]
fn settings_default_and_fill_strategy() {
    let s = RendererSettings::default();
    assert!(matches!(s.projection, Projection::Perspective));
    assert!(!s.wireframe && !s.vertex_color_interp && !s.fragment_shading);
    assert_eq!(s.fill_strategy(true, true), FillStrategy::Nothing);
    let v = RendererSettings { vertex_color_interp: true, ..s };
    assert_eq!(v.fill_strategy(false, true), FillStrategy::VertexColors);
    assert_eq!(v.fill_strategy(false, false), FillStrategy::Nothing);
    let f = RendererSettings { fragment_shading: true, vertex_color_interp: true, ..s };
    assert_eq!(f.fill_strategy(true, true), FillStrategy::FragmentShader);
    assert_eq!(f.fill_strategy(false, true), FillStrategy::Nothing);
}

#[test]
fn target_line_between_extreme_endpoints() {
    let mut t = RenderTarget::new(Viewport::new(0, 0, 10, 10));
    let far = 1i64 << 40;
    t.draw_line((-far, 5), (far, 5), [4, 5, 6]);
    for x in 0..10 {
        assert_eq!(pixel(&t, x, 5), [4, 5, 6]);
    }
    assert_eq!(t.frame_buffer.iter().filter(|b| **b != 0).count(), 30);
}

#[test]
fn target_line_missing_the_corner_draws_nothing() {
    let mut t = RenderTarget::new(Viewport::new(0, 0, 100, 100));
    t.draw_line((104, 96), (94, 103), [255, 255, 255]);
    assert!(t.frame_buffer.iter().all(|b| *b == 0));
}

#[test]
fn nan_depth_never_passes() {
    let mut t = RenderTarget::new(Viewport::new(0, 0, 2, 2));
    assert_eq!(depth_key(f32::NAN.to_bits()), i32::MIN);
    assert_eq!(depth_key((-f32::NAN).to_bits()), i32::MIN);
    assert_eq!(depth_key(0x7FC0_0001), i32::MIN);
    assert!(!t.depth_test(0, 0, depth_key(f32::NAN.to_bits())));
    assert_eq!(t.depth_buffer[0], DEPTH_FAR);
    assert!(depth_key(f32::INFINITY.to_bits()) > depth_key(f32::MAX.to_bits()));
    assert!(t.depth_test(0, 0, depth_key(1.0f32.to_bits())));
}

#[test]
fn draw_fragment_writes_only_when_nearer() {
    let mut t = RenderTarget::new(Viewport::new(0, 0, 2, 1));
    assert!(t.draw_fragment(1, 0, 10, [1, 2, 3]));
    assert_eq!(&t.frame_buffer[3..6], &[1, 2, 3]);
    assert!(!t.draw_fragment(1, 0, 5, [9, 9, 9]));
    assert_eq!(&t.frame_buffer[3..6], &[1, 2, 3]);
    assert!(!t.draw_fragment(2, 0, 50, [9, 9, 9]));
    assert!(t.draw_fragment(1, 0, 11, [7, 7, 7]));
    assert_eq!(&t.frame_buffer[3..6], &[7, 7, 7]);
    assert_eq!(t.depth_buffer, vec![DEPTH_FAR, 11]);
}

#[test]
fn clipped_line_direction_does_not_matter() {
    let cases = [
        ((-30, 20), (130, 70)),
        ((50, -40), (70, 160)),
        ((-20, 150), (150, -20)),
        ((120, 50), (-5, 50)),
        ((40, 130), (40, -10)),
        ((95, 110), (110, 95)),
    ];
    for (p0, p1) in cases {
        let mut a = RenderTarget::new(Viewport::new(0, 0, 100, 100));
        let mut b = RenderTarget::new(Viewport::new(0, 0, 100, 100));
        a.draw_line(p0, p1, [0, 255, 0]);
        b.draw_line(p1, p0, [0, 255, 0]);
        assert_eq!(a.frame_buffer, b.frame_buffer);
        assert_eq!(a.depth_buffer, b.depth_buffer);
    }
}
