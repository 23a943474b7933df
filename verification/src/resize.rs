//! Resampling of R, G, B pixel buffers, done by the `image` crate.

use vstd::prelude::*;

verus! {

/// The pixels that `image::imageops::resize` with `FilterType::Triangle` produces
/// when it resizes the `width` x `height` R, G, B image `pixels` to
/// `new_width` x `new_height`.
pub uninterp spec fn triangle_resized(
    pixels: Seq<u8>,
    width: u32,
    height: u32,
    new_width: u32,
    new_height: u32,
) -> Seq<u8>;

/// Resizes an R, G, B image with `image::imageops::resize` and
/// `image::imageops::FilterType::Triangle`, on the `image::RgbImage` that
/// `image::ImageBuffer::from_raw` builds from `pixels`.
///
/// Claimed of the call: its pixels are `triangle_resized` of the arguments; there
/// are `3 * new_width * new_height` of them, row by row; a source of the target size
/// comes back unchanged, and an empty source gives an all-zero image. The geometry of
/// the source is kept: a source one pixel high gives rows that all equal the first,
/// and a source one pixel wide gives rows that are each one colour (in `image`'s
/// sampler the single source row, or column, gets the weight 1.0 exactly, so the
/// vertical, or horizontal, pass copies it). The filtered values themselves are left
/// to the name.
#[verifier::external_body]
pub(crate) fn resize_rgb_triangle(
    pixels: &[u8],
    width: u32,
    height: u32,
    new_width: u32,
    new_height: u32,
) -> (out: Vec<u8>)
    requires
        pixels@.len() == width as nat * height as nat * 3,
        new_width as nat * new_height as nat * 4 <= usize::MAX,
        width as nat * new_height as nat * 4 <= usize::MAX,
    ensures
        out@ == triangle_resized(pixels@, width, height, new_width, new_height),
        out@.len() == new_width as nat * new_height as nat * 3,
        width > 0 && height > 0 && new_width == width && new_height == height ==> out@ == pixels@,
        width == 0 || height == 0 ==> out@ == Seq::new(out@.len(), |i: int| 0u8),
        width > 0 && height == 1 ==> forall|y: int, x: int, c: int|
            0 <= y < new_height && 0 <= x < new_width && 0 <= c < 3 ==> #[trigger] out@[(y
                * new_width + x) * 3 + c] == out@[x * 3 + c],
        width == 1 && height > 0 ==> forall|y: int, x: int, c: int|
            0 <= y < new_height && 0 <= x < new_width && 0 <= c < 3 ==> #[trigger] out@[(y
                * new_width + x) * 3 + c] == out@[(y * new_width) * 3 + c],
{
    let source = image::RgbImage::from_raw(width, height, pixels.to_vec()).unwrap();
    image::imageops::resize(&source, new_width, new_height, image::imageops::FilterType::Triangle)
        .into_raw()
}

} // verus!
