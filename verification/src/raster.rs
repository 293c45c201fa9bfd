//! The boundary to the `image` crate: the image types this library reads and
//! fills, the names under which contracts speak of their contents, and the
//! calls into the crate.

use crate::grid::{Color, Grid};
use image::{DynamicImage, GenericImageView, ImageBuffer, Rgba};
use vstd::prelude::*;

verus! {

#[verifier::external_type_specification]
#[verifier::external_body]
pub struct ExDynamicImage(DynamicImage);

/// An owned buffer of 8-bit RGBA pixels, as `image::ImageBuffer` lays it out.
///
/// `ImageBuffer` is bounded by a trait of the `image` crate, so it is held
/// here behind an opaque struct instead of being declared directly.
#[verifier::external_body]
pub struct RgbaBuffer {
    pixels: ImageBuffer<Rgba<u8>, Vec<u8>>,
}

/// The width of a decoded image, in pixels.
pub uninterp spec fn image_width(img: DynamicImage) -> nat;

/// The height of a decoded image, in pixels.
pub uninterp spec fn image_height(img: DynamicImage) -> nat;

/// The colour that a decoded image shows at each coordinate inside it.
pub uninterp spec fn image_colors(img: DynamicImage) -> Map<(int, int), Color>;

/// The width of an RGBA buffer, in pixels.
pub uninterp spec fn buffer_width(buf: RgbaBuffer) -> nat;

/// The height of an RGBA buffer, in pixels.
pub uninterp spec fn buffer_height(buf: RgbaBuffer) -> nat;

/// The colour that an RGBA buffer holds at each coordinate inside it.
pub uninterp spec fn buffer_colors(buf: RgbaBuffer) -> Map<(int, int), Color>;

/// The model of a decoded image.
pub open spec fn image_grid(img: DynamicImage) -> Grid {
    Grid { width: image_width(img), height: image_height(img), colors: image_colors(img) }
}

/// The model of an RGBA buffer.
pub open spec fn buffer_grid(buf: RgbaBuffer) -> Grid {
    Grid { width: buffer_width(buf), height: buffer_height(buf), colors: buffer_colors(buf) }
}

/// Calls `GenericImageView::dimensions` on a `DynamicImage`, which reports the
/// width and the height of the image it wraps.
#[verifier::external_body]
pub(crate) fn dimensions(img: &DynamicImage) -> (size: (u32, u32))
    ensures
        size.0 == image_width(*img),
        size.1 == image_height(*img),
{
    img.dimensions()
}

/// Calls `GenericImageView::get_pixel` on a `DynamicImage`, which converts the
/// pixel stored at `(x, y)` to 8-bit RGBA and panics outside the image.
#[verifier::external_body]
pub(crate) fn color_at(img: &DynamicImage, x: u32, y: u32) -> (color: Color)
    requires
        x < image_width(*img),
        y < image_height(*img),
    ensures
        color == image_colors(*img)[(x as int, y as int)],
{
    let Rgba([red, green, blue, alpha]) = img.get_pixel(x, y);
    Color { red, green, blue, alpha }
}

/// An RGBA buffer of `width` by `height` pixels can be held in one vector:
/// the four bytes per pixel of one row can be counted in a `usize`, and those
/// of all rows add up to `isize::MAX` at most.
pub open spec fn buffer_fits(width: int, height: int) -> bool {
    4 * width <= usize::MAX && 4 * width * height <= isize::MAX
}

/// Calls `ImageBuffer::new`, which allocates a zeroed buffer of the given
/// size. It multiplies the four channels by the width and then by the height
/// and panics when either product leaves `usize`, or when the byte length
/// does not fit a vector.
#[verifier::external_body]
pub(crate) fn new_buffer(width: u32, height: u32) -> (buf: RgbaBuffer)
    requires
        buffer_fits(width as int, height as int),
    ensures
        buffer_width(buf) == width,
        buffer_height(buf) == height,
        forall|x: int, y: int|
            0 <= x < width && 0 <= y < height
                ==> #[trigger] buffer_colors(buf)[(x, y)] == Color::transparent(),
{
    RgbaBuffer { pixels: ImageBuffer::new(width, height) }
}

/// Calls `ImageBuffer::put_pixel`, which overwrites the pixel at `(x, y)`,
/// leaves every other pixel alone and panics outside the buffer.
#[verifier::external_body]
pub(crate) fn put_color(buf: &mut RgbaBuffer, x: u32, y: u32, color: Color)
    requires
        x < buffer_width(*old(buf)),
        y < buffer_height(*old(buf)),
    ensures
        buffer_width(*final(buf)) == buffer_width(*old(buf)),
        buffer_height(*final(buf)) == buffer_height(*old(buf)),
        buffer_colors(*final(buf)) == buffer_colors(*old(buf)).insert((x as int, y as int), color),
{
    buf.pixels.put_pixel(x, y, Rgba([color.red, color.green, color.blue, color.alpha]));
}

/// Wraps the buffer in `DynamicImage::ImageRgba8`, whose `dimensions` and
/// `get_pixel` hand back the buffer's own size and pixels unconverted.
#[verifier::external_body]
pub(crate) fn into_image(buf: RgbaBuffer) -> (img: DynamicImage)
    ensures
        image_width(img) == buffer_width(buf),
        image_height(img) == buffer_height(buf),
        forall|x: int, y: int|
            0 <= x < buffer_width(buf) && 0 <= y < buffer_height(buf)
                ==> #[trigger] image_colors(img)[(x, y)] == buffer_colors(buf)[(x, y)],
{
    DynamicImage::ImageRgba8(buf.pixels)
}

} // verus!
