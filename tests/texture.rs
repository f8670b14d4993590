use tiny_renderer::texture::{Format, Sampler, Texture, TextureError, WrappingMode};

fn texture(format: Format, data: Vec<u8>, wrap: WrappingMode) -> Texture {
    Texture {
        id: 0,
        width: 2,
        height: 2,
        format,
        data,
        sampler: Sampler { mag_filter: None, min_filter: None, wrap_s: wrap, wrap_t: WrappingMode::Repeat },
    }
}

#[test]
fn rgb_texel() {
    let t = texture(Format::R8G8B8, (0..12).collect(), WrappingMode::Repeat);
    assert_eq!(t.texel(0, 0), Ok([0, 1, 2]));
    assert_eq!(t.texel(1, 0), Ok([3, 4, 5]));
    assert_eq!(t.texel(0, 1), Ok([6, 7, 8]));
    assert_eq!(t.texel(1, 1), Ok([9, 10, 11]));
}

#[test]
fn rgba_texel_skips_alpha() {
    let t = texture(Format::R8G8B8A8, (0..16).collect(), WrappingMode::Repeat);
    assert_eq!(t.texel(1, 0), Ok([4, 5, 6]));
    assert_eq!(t.texel(1, 1), Ok([12, 13, 14]));
}

#[test]
fn unsupported_wrap_mode() {
    let t = texture(Format::R8G8B8, (0..12).collect(), WrappingMode::ClampToEdge);
    assert_eq!(t.texel(0, 0), Err(TextureError::UnsupportedWrapMode));
}

#[test]
fn unsupported_format() {
    let t = texture(Format::R16, (0..8).collect(), WrappingMode::Repeat);
    assert_eq!(t.texel(0, 0), Err(TextureError::UnsupportedFormat));
}
