//! Textures as raw pixel rows, and the texel lookup that sampling ends in.

use vstd::prelude::*;

verus! {

/// Layout of one texel in a texture's bytes.
#[allow(non_camel_case_types)]
#[derive(Clone, Copy, Debug, PartialEq, Eq, Structural)]
pub enum Format {
    R8,
    R8G8,
    R8G8B8,
    R8G8B8A8,
    R16,
    R16G16,
    R16G16B16,
    R16G16B16A16,
    R32G32B32FLOAT,
    R32G32B32A32FLOAT,
}

/// What happens to a texture coordinate outside `[0, 1]`.
#[derive(Clone, Copy, Debug, PartialEq, Eq, Structural)]
pub enum WrappingMode {
    ClampToEdge,
    MirroredRepeat,
    Repeat,
}

#[derive(Clone, Copy, Debug, PartialEq, Eq, Structural)]
pub enum MagFilter {
    Nearest,
    Linear,
}

#[derive(Clone, Copy, Debug, PartialEq, Eq, Structural)]
pub enum MinFilter {
    Nearest,
    Linear,
    NearestMipmapNearest,
    LinearMipmapNearest,
    NearestMipmapLinear,
    LinearMipmapLinear,
}

#[derive(Clone, Copy, Debug)]
pub struct Sampler {
    pub mag_filter: Option<MagFilter>,
    pub min_filter: Option<MinFilter>,
    pub wrap_s: WrappingMode,
    pub wrap_t: WrappingMode,
}

/// Why a texture cannot be sampled.
#[derive(Clone, Copy, Debug, PartialEq, Eq, Structural)]
pub enum TextureError {
    /// Sampling needs repeat wrapping on both axes.
    UnsupportedWrapMode,
    /// Sampling needs 8-bit RGB or RGBA texels.
    UnsupportedFormat,
}

#[derive(Debug)]
pub struct Texture {
    pub id: usize,
    pub width: u32,
    pub height: u32,
    pub format: Format,
    /// Row-major texels, `bytes_per_texel(format)` bytes each.
    pub data: Vec<u8>,
    pub sampler: Sampler,
}

/// Bytes per texel of the packed formats that sampling reads.
pub open spec fn bytes_per_texel(format: Format) -> Option<int> {
    match format {
        Format::R8G8B8 => Some(3),
        Format::R8G8B8A8 => Some(4),
        _ => None,
    }
}

impl Texture {
    /// The data holds every texel of a format that sampling reads.
    pub open spec fn wf(&self) -> bool {
        bytes_per_texel(self.format) matches Some(b) ==> self.width * self.height * b
            <= self.data@.len()
    }

    /// Byte offset of texel `(x, y)` in a texture of `b` bytes per texel.
    pub open spec fn texel_offset(&self, x: int, y: int, b: int) -> int {
        (y * self.width + x) * b
    }

    /// The RGB bytes of texel `(x, y)` (an alpha byte is left out), or why the
    /// texture cannot be sampled: its wrap mode is not repeat on both axes, or
    /// its format is not 8-bit RGB or RGBA.
    pub fn texel(&self, x: u32, y: u32) -> (r: Result<[u8; 3], TextureError>)
        requires
            self.wf(),
            x < self.width,
            y < self.height,
        ensures
            !(self.sampler.wrap_s == WrappingMode::Repeat && self.sampler.wrap_t
                == WrappingMode::Repeat) ==> r == Err::<[u8; 3], TextureError>(
                TextureError::UnsupportedWrapMode,
            ),
            self.sampler.wrap_s == WrappingMode::Repeat && self.sampler.wrap_t
                == WrappingMode::Repeat ==> match bytes_per_texel(self.format) {
                None => r == Err::<[u8; 3], TextureError>(TextureError::UnsupportedFormat),
                Some(b) => {
                    let i = self.texel_offset(x as int, y as int, b);
                    r == Ok::<[u8; 3], TextureError>([self.data@[i], self.data@[i + 1], self.data@[i + 2]])
                },
            },
    {
        if self.sampler.wrap_s != WrappingMode::Repeat || self.sampler.wrap_t != WrappingMode::Repeat {
            return Err(TextureError::UnsupportedWrapMode);
        }
        let bpp: u64 = match self.format {
            Format::R8G8B8 => 3,
            Format::R8G8B8A8 => 4,
            _ => {
                return Err(TextureError::UnsupportedFormat);
            },
        };
        let len = self.data.len();
        proof {
            let w = self.width as int;
            let h = self.height as int;
            assert((y * w + x) * bpp + bpp <= w * h * bpp) by (nonlinear_arith)
                requires x < w, y < h, bpp > 0;
            assert(0 <= y * w <= y * w + x <= (y * w + x) * bpp) by (nonlinear_arith)
                requires bpp > 0, w >= 0, y >= 0, x >= 0;
            assert(w * h * bpp <= len);
        }
        let i: usize = (y as usize * self.width as usize + x as usize) * bpp as usize;
        let c = [self.data[i], self.data[i + 1], self.data[i + 2]];
        Ok(c)
    }
}

} // verus!
