use flat_regions::{parse_image, Region, Report, Status};
use image::{DynamicImage, Rgba, RgbaImage};

#[test]
fn status_codes() {
    assert_eq!(Status::Decoded.code(), 0);
    assert_eq!(Status::InvalidIdentifier.code(), 1);
    assert_eq!(Status::DecodeFailed.code(), 2);
    assert_eq!(Status::ImageTooLarge.code(), 3);
}

#[test]
fn invalid_identifier_reports_zero_regions() {
    let report = Report::invalid_identifier();
    assert_eq!(report.status, Status::InvalidIdentifier);
    assert_eq!(report.count(), 0);
    assert!(report.regions.is_empty());
}

#[test]
fn decode_failure_reports_zero_regions_and_its_own_status() {
    let report = Report::decode_failed();
    assert_eq!(report.status, Status::DecodeFailed);
    assert_eq!(report.count(), 0);
    assert_ne!(report.status.code(), Status::Decoded.code());
}

#[test]
fn decoded_image_without_regions_is_told_from_a_failure() {
    let img = DynamicImage::ImageRgba8(RgbaImage::from_pixel(2, 2, Rgba([0, 0, 0, 255])));
    let report = Report::of_image(&img);
    assert_eq!(report.status, Status::Decoded);
    assert_eq!(report.count(), 0);
}

#[test]
fn decoded_image_reports_its_regions_in_order() {
    let red = [255, 0, 0, 255];
    let mut buffer = RgbaImage::from_pixel(4, 1, Rgba(red));
    buffer.put_pixel(2, 0, Rgba([255, 255, 255, 255]));
    let img = DynamicImage::ImageRgba8(buffer);
    let report = Report::of_image(&img);
    assert_eq!(report.status, Status::Decoded);
    assert_eq!(report.count(), 2);
    assert_eq!(
        report.regions,
        vec![
            Region { color: red, bounds: (0, 0, 1, 0) },
            Region { color: red, bounds: (3, 0, 3, 0) },
        ]
    );
    assert_eq!(report.regions, parse_image(&img));
}
