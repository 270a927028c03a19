//! The region detector: one pass over the image that reports every
//! connected, equally colored, non-background region with its color and its
//! bounding box.

use vstd::prelude::*;
use crate::bounds::is_bounding_box;
use crate::connectivity::{component, lemma_component_reflexive, lemma_fill_claims_component};
use crate::fill::flood_fill;
use crate::grid::{Grid, Point};
use crate::raster::{dimensions, get_pixel, grid_of, image_dimensions, mask_fits, VisitedMask};
use crate::scan::{
    covered, leaders, leaders_before, lemma_covered_at_start, lemma_covered_next_column,
    lemma_scan_finds_leader, lemma_scan_passes,
};

verus! {

/// One detected region: the color shared by all its pixels and its bounding
/// box `(min_x, min_y, max_x, max_y)`, inclusive on all four edges.
#[derive(Clone, Copy, Debug, PartialEq, Eq)]
pub struct Region {
    pub color: [u8; 4],
    pub bounds: (u32, u32, u32, u32),
}

/// Whether `region` is the report for the component of `p`: the color of
/// `p` and the tight bounding box of that component.
pub open spec fn describes(g: Grid, region: Region, p: Point) -> bool {
    &&& region.color@ == g.color(p)
    &&& is_bounding_box(component(g, p), region.bounds)
}

/// Whether `regions` reports the components of `found`, one region for each
/// pixel and in the same order.
pub open spec fn reports(g: Grid, regions: Seq<Region>, found: Seq<Point>) -> bool {
    &&& regions.len() == found.len()
    &&& forall|i: int| 0 <= i < regions.len() ==> describes(g, #[trigger] regions[i], found[i])
}

/// Whether `regions` is the detection of `g`: one region for each component
/// of foreground pixels, in the order in which the scan meets their leaders.
pub open spec fn is_detection(g: Grid, regions: Seq<Region>) -> bool {
    reports(g, regions, leaders(g))
}

/// Detects the regions of a decoded image.
///
/// The image is scanned column by column from the left, each column from the
/// top down. Pure white and pure black pixels (by red, green and blue alone)
/// are background and are skipped, as are pixels that an earlier fill has
/// claimed. Every other pixel met starts a flood fill over the edge-adjacent
/// pixels of exactly its color, and the fill's color and bounding box are
/// appended to the result.
pub fn parse_image(img: &image::DynamicImage) -> (regions: Vec<Region>)
    requires
        mask_fits(image_dimensions(*img).0, image_dimensions(*img).1),
    ensures
        is_detection(grid_of(*img), regions@),
{
    let mut regions: Vec<Region> = Vec::new();
    let (width, height): (u32, u32) = dimensions(img);
    let mut processed = VisitedMask::new(width, height);
    let ghost g = grid_of(*img);
    proof {
        lemma_covered_at_start(g);
    }

    let mut x: u32 = 0;
    while x < width
        invariant
            x <= width,
            g == grid_of(*img),
            (width, height) == image_dimensions(*img),
            processed.dimensions() == (width, height),
            processed.visited() == covered(g, x as int, 0),
            reports(g, regions@, leaders_before(g, x as int, 0)),
        decreases width - x,
    {
        let mut y: u32 = 0;
        while y < height
            invariant
                x < width,
                y <= height,
                g == grid_of(*img),
                (width, height) == image_dimensions(*img),
                processed.dimensions() == (width, height),
                processed.visited() == covered(g, x as int, y as int),
                reports(g, regions@, leaders_before(g, x as int, y as int)),
            decreases height - y,
        {
            let pixel: [u8; 4] = get_pixel(img, x, y);
            let ghost here: Point = (x as int, y as int);
            // Ignore white, black, and already processed pixels.
            if pixel[0] == 255 && pixel[1] == 255 && pixel[2] == 255 || pixel[0] == 0 && pixel[1]
                == 0 && pixel[2] == 0 || processed.is_visited(x, y) {
                proof {
                    lemma_scan_passes(g, x as int, y as int);
                }
            } else {
                let ghost earlier = regions@;
                proof {
                    lemma_scan_finds_leader(g, x as int, y as int);
                    lemma_fill_claims_component(g, processed.visited(), here);
                    lemma_component_reflexive(g, here);
                    assert(component(g, here).insert(here) =~= component(g, here));
                }
                // Flood fill to claim the region and find its bounds.
                let bounds: (u32, u32, u32, u32) = flood_fill(img, &mut processed, x, y, pixel);
                regions.push(Region { color: pixel, bounds });
                proof {
                    let found = leaders_before(g, x as int, y as int + 1);
                    assert forall|i: int| 0 <= i < regions@.len() implies describes(
                        g,
                        #[trigger] regions@[i],
                        found[i],
                    ) by {
                        if i < earlier.len() {
                            assert(regions@[i] == earlier[i]);
                        }
                    }
                }
            }
            y += 1;
        }
        proof {
            lemma_covered_next_column(g, x as int);
        }
        x += 1;
    }
    regions
}

/// Whether a visited mask for an image of this size can be allocated.
fn mask_size_fits(width: u32, height: u32) -> (fits: bool)
    ensures
        fits == mask_fits(width, height),
{
    let row: u128 = 4 * (width as u128);
    assert(row * height <= 0x3_FFFF_FFFC * 0xFFFF_FFFF) by (nonlinear_arith)
        requires
            0 <= row <= 0x3_FFFF_FFFC,
            0 <= height <= 0xFFFF_FFFF,
    ;
    let bytes: u128 = row * (height as u128);
    row <= usize::MAX as u128 && bytes <= isize::MAX as u128
}

/// Detects the regions of a decoded image of any size: `None` where the
/// image has more pixels than a visited mask can be allocated for, the
/// detection otherwise.
pub fn try_parse_image(img: &image::DynamicImage) -> (found: Option<Vec<Region>>)
    ensures
        match found {
            Some(regions) => {
                &&& mask_fits(image_dimensions(*img).0, image_dimensions(*img).1)
                &&& is_detection(grid_of(*img), regions@)
            },
            None => !mask_fits(image_dimensions(*img).0, image_dimensions(*img).1),
        },
{
    let (width, height): (u32, u32) = dimensions(img);
    if mask_size_fits(width, height) {
        Some(parse_image(img))
    } else {
        None
    }
}

} // verus!
