//! The pixel sources this crate works on: a decoded `image::DynamicImage`,
//! which is only ever read, and the visited mask, an RGBA buffer of the same
//! size whose alpha channel records which pixels a fill has already claimed.
//!
//! Both live in the `image` crate. What is stated about them here is taken on
//! trust from that crate's source and is not proved.

use vstd::prelude::*;
use crate::grid::Grid;

verus! {

#[verifier::external_type_specification]
#[verifier::external_body]
pub struct ExDynamicImage(image::DynamicImage);

/// The width and height that `GenericImageView::dimensions` reports for a
/// decoded image.
pub uninterp spec fn image_dimensions(img: image::DynamicImage) -> (u32, u32);

/// The RGBA value that `GenericImageView::get_pixel` reports at each
/// coordinate of a decoded image, keyed by `(x, y)`.
pub uninterp spec fn image_pixels(img: image::DynamicImage) -> Map<(int, int), Seq<u8>>;

/// A decoded image seen as a grid: its dimensions and its pixels.
pub open spec fn grid_of(img: image::DynamicImage) -> Grid {
    Grid {
        width: image_dimensions(img).0 as nat,
        height: image_dimensions(img).1 as nat,
        colors: image_pixels(img),
    }
}

/// Calls `<DynamicImage as GenericImageView>::dimensions`.
///
/// Trusted: the pair returned is the image's width and height, and is the
/// same every time it is asked of the same image.
#[verifier::external_body]
pub(crate) fn dimensions(img: &image::DynamicImage) -> (size: (u32, u32))
    ensures
        size == image_dimensions(*img),
{
    image::GenericImageView::dimensions(img)
}

/// Calls `<DynamicImage as GenericImageView>::get_pixel` and hands back the
/// four channels of the `Rgba<u8>` it returns.
///
/// Trusted: for a coordinate inside the image the call does not panic, and
/// the value depends only on the image and the coordinate. The outside
/// function panics for a coordinate outside the image, so such coordinates
/// are excluded.
#[verifier::external_body]
pub(crate) fn get_pixel(img: &image::DynamicImage, x: u32, y: u32) -> (color: [u8; 4])
    requires
        x < image_dimensions(*img).0,
        y < image_dimensions(*img).1,
    ensures
        color@ == image_pixels(*img)[(x as int, y as int)],
{
    image::GenericImageView::get_pixel(img, x, y).0
}

/// For every pixel of an image, whether some fill has already claimed it.
///
/// The mask is an `image::ImageBuffer<Rgba<u8>, Vec<u8>>` with the image's
/// dimensions. A pixel counts as visited when its alpha channel is not zero.
/// The verifier does not look inside the buffer: all that is known of it
/// comes from the contracts of the three functions that touch it.
#[verifier::external_body]
pub struct VisitedMask {
    buffer: image::ImageBuffer<image::Rgba<u8>, Vec<u8>>,
}

/// Whether a mask for an image of this size can be allocated: four bytes
/// for each pixel, a row length that fits in `usize`, and in all no more
/// bytes than a vector can hold.
pub open spec fn mask_fits(width: u32, height: u32) -> bool {
    4 * width <= usize::MAX && 4 * width * height <= isize::MAX
}

/// The width and height the mask's buffer was made with.
pub uninterp spec fn mask_dimensions(mask: VisitedMask) -> (u32, u32);

/// The RGBA value stored at each coordinate of the mask's buffer, keyed by
/// `(x, y)`.
pub uninterp spec fn mask_pixels(mask: VisitedMask) -> Map<(int, int), Seq<u8>>;

/// Calls `ImageBuffer::from_pixel`.
///
/// Trusted: the buffer has the dimensions asked for and holds `color` at
/// every coordinate. The outside function computes the buffer's length as
/// `4 * width * height` in `usize`, one factor after the other, and panics
/// when that overflows or when the length is more than a vector can hold,
/// so such sizes are excluded.
#[verifier::external_body]
fn buffer_from_pixel(width: u32, height: u32, color: [u8; 4]) -> (mask: VisitedMask)
    requires
        mask_fits(width, height),
    ensures
        mask_dimensions(mask) == (width, height),
        forall|x: int, y: int|
            0 <= x < width && 0 <= y < height ==> #[trigger] mask_pixels(mask)[(x, y)] == color@,
{
    VisitedMask { buffer: image::ImageBuffer::from_pixel(width, height, image::Rgba(color)) }
}

/// Calls `ImageBuffer::get_pixel` and hands back the four channels of the
/// pixel it refers to.
///
/// Trusted: the value is the one stored at that coordinate. The outside
/// function panics for a coordinate outside the buffer, so such coordinates
/// are excluded.
#[verifier::external_body]
fn buffer_get_pixel(mask: &VisitedMask, x: u32, y: u32) -> (color: [u8; 4])
    requires
        x < mask_dimensions(*mask).0,
        y < mask_dimensions(*mask).1,
    ensures
        color@ == mask_pixels(*mask)[(x as int, y as int)],
{
    mask.buffer.get_pixel(x, y).0
}

/// Calls `ImageBuffer::put_pixel`.
///
/// Trusted: the pixel at that coordinate becomes `color`, every other pixel
/// and the dimensions stay as they were. The outside function panics for a
/// coordinate outside the buffer, so such coordinates are excluded.
#[verifier::external_body]
fn buffer_put_pixel(mask: &mut VisitedMask, x: u32, y: u32, color: [u8; 4])
    requires
        x < mask_dimensions(*old(mask)).0,
        y < mask_dimensions(*old(mask)).1,
    ensures
        mask_dimensions(*final(mask)) == mask_dimensions(*old(mask)),
        mask_pixels(*final(mask)) == mask_pixels(*old(mask)).insert((x as int, y as int), color@),
{
    mask.buffer.put_pixel(x, y, image::Rgba(color))
}

impl VisitedMask {
    /// Width and height of the mask.
    pub open spec fn dimensions(self) -> (u32, u32) {
        mask_dimensions(self)
    }

    /// The coordinates marked as visited.
    pub open spec fn visited(self) -> Set<(int, int)> {
        Set::new(
            |p: (int, int)|
                0 <= p.0 < mask_dimensions(self).0 && 0 <= p.1 < mask_dimensions(self).1
                    && mask_pixels(self)[p][3] != 0,
        )
    }

    /// A mask of the given size with nothing visited.
    pub fn new(width: u32, height: u32) -> (mask: VisitedMask)
        requires
            mask_fits(width, height),
        ensures
            mask.dimensions() == (width, height),
            mask.visited() == Set::<(int, int)>::empty(),
    {
        let mask: VisitedMask = buffer_from_pixel(width, height, [0, 0, 0, 0]);
        assert(mask.visited() =~= Set::<(int, int)>::empty());
        mask
    }

    /// Whether `(x, y)` has been marked.
    pub fn is_visited(&self, x: u32, y: u32) -> (seen: bool)
        requires
            x < self.dimensions().0,
            y < self.dimensions().1,
        ensures
            seen == self.visited().contains((x as int, y as int)),
    {
        let color: [u8; 4] = buffer_get_pixel(self, x, y);
        color[3] != 0
    }

    /// Marks `(x, y)` as visited.
    pub fn mark(&mut self, x: u32, y: u32)
        requires
            x < old(self).dimensions().0,
            y < old(self).dimensions().1,
        ensures
            final(self).dimensions() == old(self).dimensions(),
            final(self).visited() == old(self).visited().insert((x as int, y as int)),
    {
        buffer_put_pixel(self, x, y, [255, 255, 255, 255]);
        assert(self.visited() =~= old(self).visited().insert((x as int, y as int)));
    }
}

} // verus!
