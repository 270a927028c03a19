//! What a caller on the far side of a foreign-call boundary is told: a
//! status that tells a decoded image without regions from a failure, and the
//! regions themselves, whose number is the count handed out.

use vstd::prelude::*;
use crate::detect::{is_detection, try_parse_image, Region};
use crate::raster::{grid_of, image_dimensions, mask_fits};

verus! {

/// How a call ended.
#[derive(Clone, Copy, Debug, PartialEq, Eq)]
pub enum Status {
    /// The image was decoded and scanned.
    Decoded,
    /// The identifier handed in was not valid text.
    InvalidIdentifier,
    /// The identifier named nothing that decodes as an image.
    DecodeFailed,
    /// The image has more pixels than a visited mask can be allocated for.
    ImageTooLarge,
}

impl Status {
    /// The number that stands for this status on the wire.
    pub open spec fn spec_code(self) -> u32 {
        match self {
            Status::Decoded => 0,
            Status::InvalidIdentifier => 1,
            Status::DecodeFailed => 2,
            Status::ImageTooLarge => 3,
        }
    }

    /// The number that stands for this status on the wire.
    pub fn code(&self) -> (code: u32)
        ensures
            code == self.spec_code(),
    {
        match self {
            Status::Decoded => 0,
            Status::InvalidIdentifier => 1,
            Status::DecodeFailed => 2,
            Status::ImageTooLarge => 3,
        }
    }
}

/// The result of one call: its status and the regions found. Every status
/// but `Decoded` comes with no regions.
#[derive(Debug)]
pub struct Report {
    pub status: Status,
    pub regions: Vec<Region>,
}

impl Report {
    /// The report for an identifier that is not valid text: no regions.
    pub fn invalid_identifier() -> (report: Report)
        ensures
            report.status == Status::InvalidIdentifier,
            report.regions@.len() == 0,
    {
        Report { status: Status::InvalidIdentifier, regions: Vec::new() }
    }

    /// The report for an identifier that names no decodable image: no
    /// regions, and a status of its own, so that the caller can tell this
    /// from an image without regions.
    pub fn decode_failed() -> (report: Report)
        ensures
            report.status == Status::DecodeFailed,
            report.regions@.len() == 0,
    {
        Report { status: Status::DecodeFailed, regions: Vec::new() }
    }

    /// The report for a decoded image: its detection, or `ImageTooLarge`
    /// and no regions where no visited mask can be allocated for it.
    pub fn of_image(img: &image::DynamicImage) -> (report: Report)
        ensures
            mask_fits(image_dimensions(*img).0, image_dimensions(*img).1) ==> report.status
                == Status::Decoded && is_detection(grid_of(*img), report.regions@),
            !mask_fits(image_dimensions(*img).0, image_dimensions(*img).1) ==> report.status
                == Status::ImageTooLarge && report.regions@.len() == 0,
    {
        match try_parse_image(img) {
            Some(regions) => Report { status: Status::Decoded, regions },
            None => Report { status: Status::ImageTooLarge, regions: Vec::new() },
        }
    }

    /// The count handed to the caller: the number of regions.
    pub fn count(&self) -> (count: usize)
        ensures
            count == self.regions@.len(),
    {
        self.regions.len()
    }
}

} // verus!
