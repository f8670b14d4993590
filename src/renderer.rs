//! The render target: a viewport, an RGB frame buffer and a depth buffer, with
//! the pixel writes, the depth test and the line drawing that the pipeline
//! performs on them.

use vstd::prelude::*;
use vstd::arithmetic::div_mod::{lemma_fundamental_div_mod, lemma_fundamental_div_mod_converse, lemma_mod_bound};
use crate::line::{
    clip_segment, clipped_line_set, lemma_clip_segment, lemma_clipped_line_symmetric, lemma_prefix_set_push, lemma_line_in_box, line_clip,
    line_pixels, line_seq, line_set, point_inside, point_ok, rect_ok,
};

verus! {

/// The pixel rectangle that rendering writes to.
#[derive(Clone, Copy, Debug)]
pub struct Viewport {
    /// Pixel coordinates of the viewport's first corner.
    pub x: i32,
    pub y: i32,
    /// Size of the viewport in pixels.
    pub width: u32,
    pub height: u32,
}

impl Viewport {
    pub fn new(x: i32, y: i32, width: u32, height: u32) -> (r: Self)
        ensures
            r == (Viewport { x, y, width, height }),
    {
        Self { x, y, width, height }
    }

    pub open spec fn pixel_count(self) -> int {
        self.width * self.height
    }

    /// The viewport's pixel count, times three bytes, fits in memory indices.
    pub open spec fn fits(self) -> bool {
        3 * self.pixel_count() <= usize::MAX
    }

    pub open spec fn contains(self, px: int, py: int) -> bool {
        self.x <= px < self.x + self.width && self.y <= py < self.y + self.height
    }

    /// Row-major index of the pixel `(px, py)`, counted from the viewport's
    /// first corner.
    pub open spec fn index_of(self, px: int, py: int) -> int {
        (py - self.y) * self.width + (px - self.x)
    }

    /// The pixel whose row-major index is `i`.
    pub open spec fn pixel_at(self, i: int) -> (int, int) {
        (self.x + i % (self.width as int), self.y + i / (self.width as int))
    }

    /// The first corner of the viewport as a clipping rectangle corner.
    pub open spec fn rect_min(self) -> (i64, i64) {
        (self.x as i64, self.y as i64)
    }

    /// The last pixel of the viewport as a clipping rectangle corner.
    pub open spec fn rect_max(self) -> (i64, i64) {
        ((self.x + self.width - 1) as i64, (self.y + self.height - 1) as i64)
    }

    /// The row-major index of `(px, py)` when the viewport holds that pixel.
    pub fn pixel_index(&self, px: i64, py: i64) -> (r: Option<usize>)
        requires
            self.fits(),
        ensures
            r is Some <==> self.contains(px as int, py as int),
            r matches Some(i) ==> i == self.index_of(px as int, py as int) && i < self.pixel_count(),
    {
        let x0 = self.x as i64;
        let y0 = self.y as i64;
        if px < x0 || px >= x0 + self.width as i64 || py < y0 || py >= y0 + self.height as i64 {
            return None;
        }
        let col = (px - x0) as u64;
        let row = (py - y0) as u64;
        proof {
            lemma_index_bound(self.width as int, self.height as int, col as int, row as int);
        }
        Some((row * self.width as u64 + col) as usize)
    }
}

/// A row-major index of a `width * height` grid stays below its pixel count.
proof fn lemma_index_bound(width: int, height: int, col: int, row: int)
    requires
        0 <= col < width,
        0 <= row < height,
    ensures
        0 <= row * width + col < width * height,
{
    assert(row * width + col < width * height) by (nonlinear_arith)
        requires 0 <= col < width, 0 <= row < height;
    assert(0 <= row * width) by (nonlinear_arith)
        requires 0 <= row, 0 <= width;
}

/// The row-major index and the pixel it names determine each other.
proof fn lemma_index_pixel(vp: Viewport, px: int, py: int)
    requires
        vp.contains(px, py),
    ensures
        0 <= vp.index_of(px, py) < vp.pixel_count(),
        vp.pixel_at(vp.index_of(px, py)) == (px, py),
{
    let w = vp.width as int;
    let col = px - vp.x;
    let row = py - vp.y;
    lemma_index_bound(w, vp.height as int, col, row);
    lemma_fundamental_div_mod_converse(row * w + col, w, row, col);
}

/// Distinct pixel indices name distinct pixels.
proof fn lemma_pixel_at_index(vp: Viewport, i: int)
    requires
        0 <= i < vp.pixel_count(),
    ensures
        vp.contains(vp.pixel_at(i).0, vp.pixel_at(i).1),
        vp.index_of(vp.pixel_at(i).0, vp.pixel_at(i).1) == i,
{
    let w = vp.width as int;
    assert(w > 0) by (nonlinear_arith)
        requires 0 <= i < w * vp.height, vp.height >= 0;
    lemma_fundamental_div_mod(i, w);
    lemma_mod_bound(i, w);
    assert(i / w < vp.height) by (nonlinear_arith)
        requires i == w * (i / w) + i % w, 0 <= i % w, i < w * vp.height, w > 0;
    assert(0 <= i / w) by (nonlinear_arith)
        requires i == w * (i / w) + i % w, i % w < w, i >= 0, w > 0;
    assert((i / w) * w + i % w == i) by (nonlinear_arith)
        requires i == w * (i / w) + i % w;
}

/// How the renderer projects view space onto the canonical volume.
#[derive(Clone, Copy, Debug)]
pub enum Projection {
    Perspective,
    Orthographic,
}

impl Default for Projection {
    fn default() -> (r: Self)
        ensures
            r == Projection::Perspective,
    {
        Projection::Perspective
    }
}

/// The renderer's switches, toggled between frames by the host.
#[derive(Clone, Copy, Debug)]
pub struct RendererSettings {
    pub projection: Projection,
    /// Draw every triangle's edges before filling it.
    pub wireframe: bool,
    /// Fill triangles with their interpolated vertex colors.
    pub vertex_color_interp: bool,
    /// Fill triangles through the fragment shader.
    pub fragment_shading: bool,
}

impl Default for RendererSettings {
    fn default() -> (r: Self)
        ensures
            r == (RendererSettings {
                projection: Projection::Perspective,
                wireframe: false,
                vertex_color_interp: false,
                fragment_shading: false,
            }),
    {
        RendererSettings {
            projection: Projection::default(),
            wireframe: false,
            vertex_color_interp: false,
            fragment_shading: false,
        }
    }
}

/// How a fragment that passed the depth test gets its color.
#[derive(Clone, Copy, Debug, PartialEq, Eq, Structural)]
pub enum FillStrategy {
    /// The fragment shader computes it.
    FragmentShader,
    /// The triangle's vertex colors are blended.
    VertexColors,
    /// No color is written.
    Nothing,
}

impl RendererSettings {
    /// The fill that these settings select for a triangle, given whether a
    /// fragment shader is installed and whether all three vertices carry a
    /// color. Fragment shading takes precedence over vertex colors.
    pub fn fill_strategy(&self, has_fragment_shader: bool, has_vertex_colors: bool) -> (r: FillStrategy)
        ensures
            r == (if self.fragment_shading {
                if has_fragment_shader {
                    FillStrategy::FragmentShader
                } else {
                    FillStrategy::Nothing
                }
            } else if self.vertex_color_interp && has_vertex_colors {
                FillStrategy::VertexColors
            } else {
                FillStrategy::Nothing
            }),
    {
        if self.fragment_shading {
            if has_fragment_shader {
                FillStrategy::FragmentShader
            } else {
                FillStrategy::Nothing
            }
        } else if self.vertex_color_interp && has_vertex_colors {
            FillStrategy::VertexColors
        } else {
            FillStrategy::Nothing
        }
    }
}

/// The key of the lowest finite depth: every fragment in front of it wins the
/// first depth test at a pixel.
pub const DEPTH_FAR: i32 = -2139095039;

/// The bit pattern of a NaN: all exponent bits set and a nonzero fraction.
pub open spec fn is_nan_bits(bits: u32) -> bool {
    bits % 0x8000_0000 > 0x7F80_0000
}

/// The integer key of a depth, given the bit pattern of its IEEE-754 single
/// precision value, so that keys order as the depths they stand for, both
/// zeros sharing the key 0. A non-negative pattern is its own key; a negative
/// one is reflected below zero. A NaN gets `i32::MIN`, which is
/// greater than no key: like a NaN depth, it never passes the depth test.
pub open spec fn depth_key_of(bits: u32) -> int {
    if is_nan_bits(bits) {
        i32::MIN as int
    } else if bits < 0x8000_0000 {
        bits as int
    } else {
        0x8000_0000 - bits
    }
}

/// The depth key of the float whose bit pattern is `bits`.
pub fn depth_key(bits: u32) -> (r: i32)
    ensures
        r == depth_key_of(bits),
{
    if bits % 0x8000_0000 > 0x7F80_0000 {
        i32::MIN
    } else if bits < 0x8000_0000 {
        bits as i32
    } else {
        (0x8000_0000 - bits as i64) as i32
    }
}

/// `buf` with the three bytes of pixel `i` set to `c`.
pub open spec fn with_pixel(buf: Seq<u8>, i: int, c: [u8; 3]) -> Seq<u8> {
    buf.update(3 * i, c[0]).update(3 * i + 1, c[1]).update(3 * i + 2, c[2])
}

/// `buf` with every pixel of `pts` set to `c`; `buf` holds the viewport's
/// pixels in row-major order, three bytes each.
pub open spec fn with_pixels(buf: Seq<u8>, vp: Viewport, pts: Set<(int, int)>, c: [u8; 3]) -> Seq<u8> {
    Seq::new(
        buf.len(),
        |j: int|
            if 0 <= j < 3 * vp.pixel_count() && pts.contains(vp.pixel_at(j / 3)) {
                c[j % 3]
            } else {
                buf[j]
            },
    )
}

/// What one fragment does to a frame buffer and a depth buffer: when its pixel
/// lies in the viewport and its depth key is greater than the one stored
/// there, the key and the color are stored; otherwise nothing changes.
pub open spec fn fragment_result(
    frame: Seq<u8>,
    depth: Seq<i32>,
    vp: Viewport,
    px: int,
    py: int,
    key: i32,
    c: [u8; 3],
) -> (Seq<u8>, Seq<i32>) {
    let i = vp.index_of(px, py);
    if vp.contains(px, py) && key > depth[i] {
        (with_pixel(frame, i, c), depth.update(i, key))
    } else {
        (frame, depth)
    }
}

/// The frame buffer and the depth buffer of one viewport.
pub struct RenderTarget {
    pub viewport: Viewport,
    /// Row-major RGB bytes, three per pixel.
    pub frame_buffer: Vec<u8>,
    /// One depth key per pixel; a greater key is closer to the camera.
    pub depth_buffer: Vec<i32>,
}

impl RenderTarget {
    /// Both buffers hold one entry per pixel of the viewport.
    pub open spec fn wf(&self) -> bool {
        &&& self.viewport.fits()
        &&& self.frame_buffer@.len() == 3 * self.viewport.pixel_count()
        &&& self.depth_buffer@.len() == self.viewport.pixel_count()
    }

    /// A cleared target: black pixels, and every depth at `DEPTH_FAR`.
    pub open spec fn is_cleared(&self) -> bool {
        &&& forall|j: int| 0 <= j < self.frame_buffer@.len() ==> self.frame_buffer@[j] == 0
        &&& forall|j: int| 0 <= j < self.depth_buffer@.len() ==> self.depth_buffer@[j] == DEPTH_FAR
    }

    pub fn new(viewport: Viewport) -> (r: Self)
        requires
            viewport.fits(),
        ensures
            r.wf(),
            r.viewport == viewport,
            r.is_cleared(),
    {
        proof {
            assert(0 <= viewport.pixel_count()) by (nonlinear_arith)
                requires viewport.pixel_count() == viewport.width * viewport.height;
        }
        let count: usize = (viewport.width as u64 * viewport.height as u64) as usize;
        let frame_buffer: Vec<u8> = vec![0u8; count * 3];
        let depth_buffer: Vec<i32> = vec![DEPTH_FAR; count];
        RenderTarget { viewport, frame_buffer, depth_buffer }
    }

    /// Resets every pixel to black and every depth to `DEPTH_FAR`.
    pub fn clear(&mut self)
        requires
            old(self).wf(),
        ensures
            final(self).wf(),
            final(self).viewport == old(self).viewport,
            final(self).is_cleared(),
    {
        let n = self.frame_buffer.len();
        let mut i: usize = 0;
        while i < n
            invariant
                n == self.frame_buffer@.len(),
                self.wf(),
                self.viewport == old(self).viewport,
                0 <= i <= n,
                forall|j: int| 0 <= j < i ==> self.frame_buffer@[j] == 0,
            decreases n - i,
        {
            self.frame_buffer.set(i, 0);
            i = i + 1;
        }
        let m = self.depth_buffer.len();
        let mut i: usize = 0;
        while i < m
            invariant
                m == self.depth_buffer@.len(),
                self.wf(),
                self.viewport == old(self).viewport,
                0 <= i <= m,
                forall|j: int| 0 <= j < self.frame_buffer@.len() ==> self.frame_buffer@[j] == 0,
                forall|j: int| 0 <= j < i ==> self.depth_buffer@[j] == DEPTH_FAR,
            decreases m - i,
        {
            self.depth_buffer.set(i, DEPTH_FAR);
            i = i + 1;
        }
    }

    /// Writes `color` at pixel `(px, py)` when the viewport holds it, and
    /// returns whether it did; a pixel outside the viewport is skipped.
    pub fn draw_pixel(&mut self, px: i64, py: i64, color: [u8; 3]) -> (r: bool)
        requires
            old(self).wf(),
        ensures
            final(self).wf(),
            final(self).viewport == old(self).viewport,
            final(self).depth_buffer@ == old(self).depth_buffer@,
            r == old(self).viewport.contains(px as int, py as int),
            final(self).frame_buffer@ == (if r {
                with_pixel(
                    old(self).frame_buffer@,
                    old(self).viewport.index_of(px as int, py as int),
                    color,
                )
            } else {
                old(self).frame_buffer@
            }),
    {
        match self.viewport.pixel_index(px, py) {
            None => false,
            Some(i) => {
                self.frame_buffer.set(3 * i, color[0]);
                self.frame_buffer.set(3 * i + 1, color[1]);
                self.frame_buffer.set(3 * i + 2, color[2]);
                true
            },
        }
    }

    /// The depth test of a fragment at `(px, py)` with depth key `key`: it
    /// passes when the viewport holds the pixel and `key` is greater than the
    /// stored key, which it then replaces.
    pub fn depth_test(&mut self, px: i64, py: i64, key: i32) -> (r: bool)
        requires
            old(self).wf(),
        ensures
            final(self).wf(),
            final(self).viewport == old(self).viewport,
            final(self).frame_buffer@ == old(self).frame_buffer@,
            r == (old(self).viewport.contains(px as int, py as int) && key > old(
                self,
            ).depth_buffer@[old(self).viewport.index_of(px as int, py as int)]),
            final(self).depth_buffer@ == (if r {
                old(self).depth_buffer@.update(
                    old(self).viewport.index_of(px as int, py as int),
                    key,
                )
            } else {
                old(self).depth_buffer@
            }),
    {
        match self.viewport.pixel_index(px, py) {
            None => false,
            Some(i) => {
                if key > self.depth_buffer[i] {
                    self.depth_buffer.set(i, key);
                    true
                } else {
                    false
                }
            },
        }
    }

    /// Draws one fragment: the depth test at `(px, py)` with `key`, then, when
    /// it passes, the write of `color` there. Fragments drawn this way obey
    /// `lemma_draw_order_independent`.
    pub fn draw_fragment(&mut self, px: i64, py: i64, key: i32, color: [u8; 3]) -> (r: bool)
        requires
            old(self).wf(),
        ensures
            final(self).wf(),
            final(self).viewport == old(self).viewport,
            (final(self).frame_buffer@, final(self).depth_buffer@) == fragment_result(
                old(self).frame_buffer@,
                old(self).depth_buffer@,
                old(self).viewport,
                px as int,
                py as int,
                key,
                color,
            ),
            r == (old(self).viewport.contains(px as int, py as int) && key > old(
                self,
            ).depth_buffer@[old(self).viewport.index_of(px as int, py as int)]),
    {
        if self.depth_test(px, py, key) {
            self.draw_pixel(px, py, color);
            true
        } else {
            false
        }
    }

    /// Draws the segment `p0 p1` in `color`: it is clipped to the viewport
    /// (Cohen–Sutherland) and the pixels of what is left are plotted
    /// (Bresenham). Nothing is drawn outside the viewport.
    pub fn draw_line(&mut self, p0: (i64, i64), p1: (i64, i64), color: [u8; 3])
        requires
            old(self).wf(),
            point_ok(p0),
            point_ok(p1),
        ensures
            final(self).wf(),
            final(self).viewport == old(self).viewport,
            final(self).depth_buffer@ == old(self).depth_buffer@,
            final(self).frame_buffer@ == with_pixels(
                old(self).frame_buffer@,
                old(self).viewport,
                viewport_line_set(old(self).viewport, p0, p1),
                color,
            ),
    {
        let vp = self.viewport;
        if vp.width == 0 || vp.height == 0 {
            proof {
                assert(vp.pixel_count() == 0) by (nonlinear_arith)
                    requires vp.width == 0 || vp.height == 0, vp.pixel_count() == vp.width * vp.height;
                assert(self.frame_buffer@ =~= with_pixels(
                    self.frame_buffer@,
                    vp,
                    viewport_line_set(vp, p0, p1),
                    color,
                ));
            }
            return;
        }
        let lo: (i64, i64) = (vp.x as i64, vp.y as i64);
        let hi: (i64, i64) = (vp.x as i64 + vp.width as i64 - 1, vp.y as i64 + vp.height as i64 - 1);
        let a: (i64, i64) = p0;
        let b: (i64, i64) = p1;
        assert(lo == vp.rect_min() && hi == vp.rect_max());
        let clipped = line_clip(a, b, lo, hi);
        proof {
            lemma_clip_segment(a, b, lo, hi);
        }
        match clipped {
            None => {
                proof {
                    assert(self.frame_buffer@ =~= with_pixels(
                        self.frame_buffer@,
                        vp,
                        viewport_line_set(vp, p0, p1),
                        color,
                    ));
                }
            },
            Some((q0, q1)) => {
                let pts = line_pixels(q0, q1);
                let ghost start = self.frame_buffer@;
                let ghost whole = line_seq(q0, q1);
                let mut k: usize = 0;
                proof {
                    assert(start =~= with_pixels(start, vp, whole.subrange(0, 0).to_set(), color));
                }
                while k < pts.len()
                    invariant
                        self.wf(),
                        self.viewport == vp,
                        self.depth_buffer@ == old(self).depth_buffer@,
                        start == old(self).frame_buffer@,
                        vp.width > 0,
                        point_inside(q0, lo, hi),
                        point_inside(q1, lo, hi),
                        lo == vp.rect_min(),
                        hi == vp.rect_max(),
                        whole == line_seq(q0, q1),
                        pts@.len() == whole.len(),
                        forall|i: int|
                            0 <= i < pts@.len() ==> (#[trigger] pts@[i].0 as int, pts@[i].1 as int)
                                == whole[i],
                        0 <= k <= pts@.len(),
                        self.frame_buffer@ == with_pixels(start, vp, whole.subrange(0, k as int).to_set(), color),
                    decreases pts@.len() - k,
                {
                    let p = pts[k];
                    proof {
                        lemma_line_in_box(q0, q1, k as int);
                        assert(vp.contains(p.0 as int, p.1 as int));
                        lemma_with_pixels_insert(
                            start,
                            vp,
                            whole.subrange(0, k as int).to_set(),
                            (p.0 as int, p.1 as int),
                            color,
                        );
                        lemma_prefix_set_push(whole, k as int);
                    }
                    self.draw_pixel(p.0, p.1, color);
                    k = k + 1;
                }
                proof {
                    assert(whole.subrange(0, k as int) =~= whole);
                }
            },
        }
    }

    /// Draws the three edges of a screen-space triangle: `v0 v1`, `v1 v2`,
    /// `v2 v0`.
    pub fn draw_wireframe(&mut self, v: [(i64, i64); 3], color: [u8; 3])
        requires
            old(self).wf(),
            point_ok(v[0]),
            point_ok(v[1]),
            point_ok(v[2]),
        ensures
            final(self).wf(),
            final(self).viewport == old(self).viewport,
            final(self).depth_buffer@ == old(self).depth_buffer@,
            final(self).frame_buffer@ == with_pixels(
                with_pixels(
                    with_pixels(
                        old(self).frame_buffer@,
                        old(self).viewport,
                        viewport_line_set(old(self).viewport, v[0], v[1]),
                        color,
                    ),
                    old(self).viewport,
                    viewport_line_set(old(self).viewport, v[1], v[2]),
                    color,
                ),
                old(self).viewport,
                viewport_line_set(old(self).viewport, v[2], v[0]),
                color,
            ),
    {
        self.draw_line(v[0], v[1], color);
        self.draw_line(v[1], v[2], color);
        self.draw_line(v[2], v[0], color);
    }
}

/// The pixels that drawing the segment `p0 p1` on the viewport plots.
pub open spec fn viewport_line_set(vp: Viewport, p0: (i64, i64), p1: (i64, i64)) -> Set<(int, int)> {
    if vp.width == 0 || vp.height == 0 {
        Set::empty()
    } else {
        clipped_line_set(
            p0,
            p1,
            vp.rect_min(),
            vp.rect_max(),
        )
    }
}

/// Drawing on the viewport from either end of a segment plots the same pixels.
pub proof fn lemma_viewport_line_symmetric(vp: Viewport, p0: (i64, i64), p1: (i64, i64))
    ensures
        viewport_line_set(vp, p0, p1) == viewport_line_set(vp, p1, p0),
{
    if vp.width > 0 && vp.height > 0 {
        lemma_clipped_line_symmetric(p0, p1, vp.rect_min(), vp.rect_max());
    }
}

/// Writing one more pixel of the viewport extends the set of pixels written.
proof fn lemma_with_pixels_insert(buf: Seq<u8>, vp: Viewport, pts: Set<(int, int)>, p: (int, int), c: [u8; 3])
    requires
        buf.len() == 3 * vp.pixel_count(),
        vp.contains(p.0, p.1),
    ensures
        with_pixel(with_pixels(buf, vp, pts, c), vp.index_of(p.0, p.1), c) == with_pixels(
            buf,
            vp,
            pts.insert(p),
            c,
        ),
{
    let i = vp.index_of(p.0, p.1);
    lemma_index_pixel(vp, p.0, p.1);
    let lhs = with_pixel(with_pixels(buf, vp, pts, c), i, c);
    let rhs = with_pixels(buf, vp, pts.insert(p), c);
    assert forall|j: int| 0 <= j < buf.len() implies #[trigger] lhs[j] == rhs[j] by {
        lemma_fundamental_div_mod(j, 3);
        lemma_mod_bound(j, 3);
        if 3 * i <= j < 3 * i + 3 {
            lemma_fundamental_div_mod_converse(j, 3, i, j - 3 * i);
        } else {
            assert(0 <= j / 3 < vp.pixel_count()) by (nonlinear_arith)
                requires j == 3 * (j / 3) + j % 3, 0 <= j % 3 < 3, 0 <= j < 3 * vp.pixel_count();
            lemma_pixel_at_index(vp, j / 3);
            assert(j / 3 != i) by (nonlinear_arith)
                requires j == 3 * (j / 3) + j % 3, 0 <= j % 3 < 3, !(3 * i <= j < 3 * i + 3);
        }
    }
    assert(lhs =~= rhs);
}

/// Order does not matter at the depth test: two fragments that do not share
/// both a pixel and a depth key leave the same frame buffer and depth buffer
/// whichever is drawn first.
pub proof fn lemma_fragments_commute(
    frame: Seq<u8>,
    depth: Seq<i32>,
    vp: Viewport,
    x1: int,
    y1: int,
    k1: i32,
    c1: [u8; 3],
    x2: int,
    y2: int,
    k2: i32,
    c2: [u8; 3],
)
    requires
        frame.len() == 3 * vp.pixel_count(),
        depth.len() == vp.pixel_count(),
        (x1, y1) == (x2, y2) ==> k1 != k2,
    ensures
        ({
            let a = fragment_result(frame, depth, vp, x1, y1, k1, c1);
            let b = fragment_result(frame, depth, vp, x2, y2, k2, c2);
            fragment_result(a.0, a.1, vp, x2, y2, k2, c2) == fragment_result(b.0, b.1, vp, x1, y1, k1, c1)
        }),
{
    let i1 = vp.index_of(x1, y1);
    let i2 = vp.index_of(x2, y2);
    let in1 = vp.contains(x1, y1);
    let in2 = vp.contains(x2, y2);
    if in1 {
        lemma_index_pixel(vp, x1, y1);
    }
    if in2 {
        lemma_index_pixel(vp, x2, y2);
    }
    let a = fragment_result(frame, depth, vp, x1, y1, k1, c1);
    let b = fragment_result(frame, depth, vp, x2, y2, k2, c2);
    let ab = fragment_result(a.0, a.1, vp, x2, y2, k2, c2);
    let ba = fragment_result(b.0, b.1, vp, x1, y1, k1, c1);
    if in1 && in2 && i1 == i2 {
        assert((x1, y1) == (x2, y2));
        assert(ab.0 =~= ba.0);
        assert(ab.1 =~= ba.1);
    } else {
        if in1 && in2 {
            assert(i1 != i2);
        }
        assert(ab.0 =~= ba.0);
        assert(ab.1 =~= ba.1);
    }
}

/// A fragment: pixel coordinates, depth key and color.
pub type Fragment = (int, int, i32, [u8; 3]);

/// What a sequence of fragments, tested and written in order, does to a frame
/// buffer and a depth buffer.
pub open spec fn fragments_result(frame: Seq<u8>, depth: Seq<i32>, vp: Viewport, fs: Seq<Fragment>) -> (
    Seq<u8>,
    Seq<i32>,
)
    decreases fs.len(),
{
    if fs.len() == 0 {
        (frame, depth)
    } else {
        let f = fs[0];
        let r = fragment_result(frame, depth, vp, f.0, f.1, f.2, f.3);
        fragments_result(r.0, r.1, vp, fs.drop_first())
    }
}

/// Two fragments that do not share both a pixel and a depth key.
pub open spec fn independent(f: Fragment, g: Fragment) -> bool {
    (f.0, f.1) == (g.0, g.1) ==> f.2 != g.2
}

/// A fragment keeps the lengths of both buffers.
proof fn lemma_fragment_lengths(frame: Seq<u8>, depth: Seq<i32>, vp: Viewport, f: Fragment)
    requires
        frame.len() == 3 * vp.pixel_count(),
        depth.len() == vp.pixel_count(),
    ensures
        fragment_result(frame, depth, vp, f.0, f.1, f.2, f.3).0.len() == frame.len(),
        fragment_result(frame, depth, vp, f.0, f.1, f.2, f.3).1.len() == depth.len(),
{
    if vp.contains(f.0, f.1) {
        lemma_index_pixel(vp, f.0, f.1);
    }
}

/// A sequence of fragments keeps the lengths of both buffers.
proof fn lemma_fragments_lengths(frame: Seq<u8>, depth: Seq<i32>, vp: Viewport, fs: Seq<Fragment>)
    requires
        frame.len() == 3 * vp.pixel_count(),
        depth.len() == vp.pixel_count(),
    ensures
        fragments_result(frame, depth, vp, fs).0.len() == frame.len(),
        fragments_result(frame, depth, vp, fs).1.len() == depth.len(),
    decreases fs.len(),
{
    if fs.len() > 0 {
        let f = fs[0];
        lemma_fragment_lengths(frame, depth, vp, f);
        let r = fragment_result(frame, depth, vp, f.0, f.1, f.2, f.3);
        lemma_fragments_lengths(r.0, r.1, vp, fs.drop_first());
    }
}

/// One fragment can be moved in front of a sequence of fragments that are all
/// independent of it.
proof fn lemma_fragment_moves_forward(frame: Seq<u8>, depth: Seq<i32>, vp: Viewport, fs: Seq<Fragment>, g: Fragment)
    requires
        frame.len() == 3 * vp.pixel_count(),
        depth.len() == vp.pixel_count(),
        forall|i: int| 0 <= i < fs.len() ==> independent(#[trigger] fs[i], g),
    ensures
        ({
            let a = fragments_result(frame, depth, vp, fs);
            let b = fragment_result(frame, depth, vp, g.0, g.1, g.2, g.3);
            fragment_result(a.0, a.1, vp, g.0, g.1, g.2, g.3) == fragments_result(b.0, b.1, vp, fs)
        }),
    decreases fs.len(),
{
    if fs.len() > 0 {
        let f = fs[0];
        assert(independent(fs[0], g));
        let r = fragment_result(frame, depth, vp, f.0, f.1, f.2, f.3);
        lemma_fragment_lengths(frame, depth, vp, f);
        let rest = fs.drop_first();
        assert forall|i: int| 0 <= i < rest.len() implies independent(#[trigger] rest[i], g) by {
            assert(rest[i] == fs[i + 1]);
        }
        lemma_fragment_moves_forward(r.0, r.1, vp, rest, g);
        lemma_fragments_commute(frame, depth, vp, f.0, f.1, f.2, f.3, g.0, g.1, g.2, g.3);
    }
}

/// Order does not matter at the depth test, for whole triangles: when no
/// fragment of one sequence shares both its pixel and its depth key with a
/// fragment of the other, drawing the first sequence and then the second
/// leaves the same frame buffer and depth buffer as the other way round.
pub proof fn lemma_draw_order_independent(frame: Seq<u8>, depth: Seq<i32>, vp: Viewport, fs: Seq<Fragment>, gs: Seq<Fragment>)
    requires
        frame.len() == 3 * vp.pixel_count(),
        depth.len() == vp.pixel_count(),
        forall|i: int, j: int| 0 <= i < fs.len() && 0 <= j < gs.len() ==> independent(#[trigger] fs[i], #[trigger] gs[j]),
    ensures
        ({
            let a = fragments_result(frame, depth, vp, fs);
            let b = fragments_result(frame, depth, vp, gs);
            fragments_result(a.0, a.1, vp, gs) == fragments_result(b.0, b.1, vp, fs)
        }),
    decreases gs.len(),
{
    if gs.len() > 0 {
        let g = gs[0];
        let rest = gs.drop_first();
        assert forall|i: int| 0 <= i < fs.len() implies independent(#[trigger] fs[i], g) by {
            assert(independent(fs[i], gs[0]));
        }
        lemma_fragment_moves_forward(frame, depth, vp, fs, g);
        let a = fragments_result(frame, depth, vp, fs);
        let b = fragment_result(frame, depth, vp, g.0, g.1, g.2, g.3);
        lemma_fragments_lengths(frame, depth, vp, fs);
        lemma_fragment_lengths(frame, depth, vp, g);
        assert forall|i: int, j: int| 0 <= i < fs.len() && 0 <= j < rest.len() implies independent(
            #[trigger] fs[i],
            #[trigger] rest[j],
        ) by {
            assert(rest[j] == gs[j + 1]);
            assert(independent(fs[i], gs[j + 1]));
        }
        lemma_draw_order_independent(b.0, b.1, vp, fs, rest);
    }
}

} // verus!
