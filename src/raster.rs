//! The raster of the finished frame: image's RGB image buffer, as far as
//! the assembler uses it.

use vstd::prelude::*;
use crate::color::Color;

verus! {

/// An RGB image buffer of image's. Verus refuses to declare
/// `image::ImageBuffer` itself (its bound is the outside trait `Pixel`), so
/// the buffer is held here and reached through the functions below.
#[verifier::external_body]
pub struct Raster {
    pub image: image::RgbImage,
}

/// The pixels of a raster, keyed by `(x, y)`; the keys are the
/// cells of the buffer.
pub uninterp spec fn raster_pixels(img: Raster) -> Map<(int, int), Color>;

/// The cells `(x, y)` of a `width` by `height` frame.
pub open spec fn frame_cells(width: int, height: int) -> Set<(int, int)> {
    Set::new(|p: (int, int)| 0 <= p.0 < width && 0 <= p.1 < height)
}

/// Relies on image's `ImageBuffer::new`: a buffer of the given size whose
/// samples are all zero, that is every pixel black. It panics where the
/// sample count overflows `usize`, first `3 * width`, then that times
/// `height`; `requires` leaves both out.
#[verifier::external_body]
pub(crate) fn new_raster(width: u32, height: u32) -> (r: Raster)
    requires
        3 * width <= usize::MAX,
        3 * width * height <= usize::MAX,
    ensures
        raster_pixels(r) == Map::new(
            |p: (int, int)| frame_cells(width as int, height as int).contains(p),
            |p: (int, int)| (0u8, 0u8, 0u8),
        ),
{
    Raster { image: image::ImageBuffer::new(width, height) }
}

/// Relies on image's `ImageBuffer::put_pixel`: it overwrites the pixel at
/// `(x, y)` and nothing else. It panics outside the buffer, which `requires`
/// leaves out.
#[verifier::external_body]
pub(crate) fn put_raster_pixel(
    img: &mut Raster,
    x: u32,
    y: u32,
    color: Color,
)
    requires
        raster_pixels(*old(img)).dom().contains((x as int, y as int)),
    ensures
        raster_pixels(*final(img)) == raster_pixels(*old(img)).insert((x as int, y as int), color),
{
    img.image.put_pixel(x, y, image::Rgb([color.0, color.1, color.2]))
}

} // verus!
