//! An RGB image of the `image` crate, as the standalone line drawer uses it:
//! its pixels are modelled as a map from coordinates to RGB triples.

use vstd::prelude::*;

verus! {

/// An RGB image with 8 bits per channel, held by the `image` crate.
#[verifier::external_body]
pub struct RgbCanvas {
    img: image::RgbImage,
}

/// The pixels of an image: the RGB triple at each coordinate `(x, y)` that the
/// image holds.
pub uninterp spec fn rgb_image_pixels(img: RgbCanvas) -> Map<(int, int), [u8; 3]>;

/// The width and the height of an image.
pub uninterp spec fn rgb_image_dimensions(img: RgbCanvas) -> (int, int);

/// The pixels that an image of the given size holds.
pub open spec fn holds_pixels(m: Map<(int, int), [u8; 3]>, width: int, height: int) -> bool {
    forall|x: int, y: int|
        #[trigger] m.dom().contains((x, y)) <==> (0 <= x < width && 0 <= y < height)
}

impl RgbCanvas {
    /// Relies on `ImageBuffer::new`: a black image of the given size; it
    /// panics when the byte count overflows `usize`.
    #[verifier::external_body]
    fn create(width: u32, height: u32) -> (r: Self)
        requires
            3 * width <= usize::MAX,
            3 * width * height <= usize::MAX,
        ensures
            rgb_image_dimensions(r) == (width as int, height as int),
            holds_pixels(rgb_image_pixels(r), width as int, height as int),
            forall|p: (int, int)| #[trigger]
                rgb_image_pixels(r).dom().contains(p) ==> rgb_image_pixels(r)[p] == [0u8, 0u8, 0u8],
    {
        RgbCanvas { img: image::RgbImage::new(width, height) }
    }

    /// Relies on `ImageBuffer::dimensions`: the width and the height of the
    /// image, which holds exactly the pixels `(x, y)` with `x < width` and
    /// `y < height`.
    #[verifier::external_body]
    fn size(&self) -> (r: (u32, u32))
        ensures
            (r.0 as int, r.1 as int) == rgb_image_dimensions(*self),
            holds_pixels(rgb_image_pixels(*self), r.0 as int, r.1 as int),
    {
        self.img.dimensions()
    }

    /// Relies on `ImageBuffer::put_pixel`: it replaces the pixel at `(x, y)`
    /// and nothing else; it panics on a pixel outside the image.
    #[verifier::external_body]
    pub(crate) fn put_pixel(&mut self, x: u32, y: u32, c: [u8; 3])
        requires
            rgb_image_pixels(*old(self)).dom().contains((x as int, y as int)),
        ensures
            rgb_image_dimensions(*final(self)) == rgb_image_dimensions(*old(self)),
            rgb_image_pixels(*final(self)) == rgb_image_pixels(*old(self)).insert(
                (x as int, y as int),
                c,
            ),
    {
        self.img.put_pixel(x, y, image::Rgb(c))
    }

    /// Relies on `ImageBuffer::into_raw`: the image's bytes, row by row, three
    /// per pixel.
    #[verifier::external_body]
    fn raw_bytes(self) -> (r: Vec<u8>)
        ensures
            r@.len() == 3 * rgb_image_dimensions(self).0 * rgb_image_dimensions(self).1,
            forall|x: int, y: int, c: int|
                0 <= x < rgb_image_dimensions(self).0 && 0 <= y < rgb_image_dimensions(self).1 && 0
                    <= c < 3 ==> r@[(y * rgb_image_dimensions(self).0 + x) * 3 + c]
                    == #[trigger] rgb_image_pixels(self)[(x, y)][c],
    {
        self.img.into_raw()
    }

    /// A black image of the given size.
    pub fn new(width: u32, height: u32) -> (r: Self)
        requires
            3 * width <= usize::MAX,
            3 * width * height <= usize::MAX,
        ensures
            rgb_image_dimensions(r) == (width as int, height as int),
            holds_pixels(rgb_image_pixels(r), width as int, height as int),
            forall|p: (int, int)| #[trigger]
                rgb_image_pixels(r).dom().contains(p) ==> rgb_image_pixels(r)[p] == [0u8, 0u8, 0u8],
    {
        Self::create(width, height)
    }

    /// The width and the height of the image.
    pub fn dimensions(&self) -> (r: (u32, u32))
        ensures
            (r.0 as int, r.1 as int) == rgb_image_dimensions(*self),
            holds_pixels(rgb_image_pixels(*self), r.0 as int, r.1 as int),
    {
        self.size()
    }

    /// The image's bytes, row by row, three per pixel.
    pub fn into_raw(self) -> (r: Vec<u8>)
        ensures
            r@.len() == 3 * rgb_image_dimensions(self).0 * rgb_image_dimensions(self).1,
            forall|x: int, y: int, c: int|
                0 <= x < rgb_image_dimensions(self).0 && 0 <= y < rgb_image_dimensions(self).1 && 0
                    <= c < 3 ==> r@[(y * rgb_image_dimensions(self).0 + x) * 3 + c]
                    == #[trigger] rgb_image_pixels(self)[(x, y)][c],
    {
        self.raw_bytes()
    }
}

/// `m` with every pixel of `pts` that it holds set to `c`.
pub open spec fn with_map_pixels(m: Map<(int, int), [u8; 3]>, pts: Set<(int, int)>, c: [u8; 3]) -> Map<
    (int, int),
    [u8; 3],
> {
    Map::new(|p: (int, int)| m.dom().contains(p), |p: (int, int)| if pts.contains(p) { c } else { m[p] })
}

} // verus!
