use flat_regions::{flood_fill, parse_image, try_parse_image, Region, VisitedMask};
use image::{DynamicImage, GrayImage, Luma, Rgb, RgbImage, Rgba, RgbaImage};

const WHITE: [u8; 4] = [255, 255, 255, 255];
const BLACK: [u8; 4] = [0, 0, 0, 255];
const RED: [u8; 4] = [255, 0, 0, 255];
const GREEN: [u8; 4] = [0, 255, 0, 255];
const BLUE: [u8; 4] = [0, 0, 255, 255];

/// Builds an image from rows of colors: `rows[y][x]` is the pixel at `(x, y)`.
fn image_of(rows: &[&[[u8; 4]]]) -> DynamicImage {
    let height = rows.len() as u32;
    let width = if rows.is_empty() { 0 } else { rows[0].len() as u32 };
    let mut buffer = RgbaImage::new(width, height);
    for (y, row) in rows.iter().enumerate() {
        assert_eq!(row.len() as u32, width);
        for (x, color) in row.iter().enumerate() {
            buffer.put_pixel(x as u32, y as u32, Rgba(*color));
        }
    }
    DynamicImage::ImageRgba8(buffer)
}

fn is_background(color: [u8; 4]) -> bool {
    (color[0] == 255 && color[1] == 255 && color[2] == 255)
        || (color[0] == 0 && color[1] == 0 && color[2] == 0)
}

fn pixel(img: &DynamicImage, x: u32, y: u32) -> [u8; 4] {
    image::GenericImageView::get_pixel(img, x, y).0
}

#[test]
fn single_pixel_in_white_grid() {
    let c = [10, 20, 30, 255];
    let img = image_of(&[
        &[WHITE, WHITE, WHITE],
        &[WHITE, c, WHITE],
        &[WHITE, WHITE, WHITE],
    ]);
    let regions = parse_image(&img);
    assert_eq!(regions.len(), 1);
    assert_eq!(regions[0].color, [10, 20, 30, 255]);
    assert_eq!(regions[0].bounds, (1, 1, 1, 1));
}

#[test]
fn row_red_red_white_red() {
    let img = image_of(&[&[RED, RED, WHITE, RED]]);
    let regions = parse_image(&img);
    assert_eq!(
        regions,
        vec![
            Region { color: RED, bounds: (0, 0, 1, 0) },
            Region { color: RED, bounds: (3, 0, 3, 0) },
        ]
    );
}

#[test]
fn all_black_two_by_two_has_no_regions() {
    let img = image_of(&[&[BLACK, BLACK], &[BLACK, BLACK]]);
    let regions = parse_image(&img);
    assert_eq!(regions.len(), 0);
}

#[test]
fn empty_grid_has_no_regions() {
    let img = DynamicImage::ImageRgba8(RgbaImage::new(0, 0));
    assert_eq!(parse_image(&img).len(), 0);
    let no_rows = DynamicImage::ImageRgba8(RgbaImage::new(5, 0));
    assert_eq!(parse_image(&no_rows).len(), 0);
    let no_columns = DynamicImage::ImageRgba8(RgbaImage::new(0, 5));
    assert_eq!(parse_image(&no_columns).len(), 0);
}

#[test]
fn freshly_allocated_image_is_all_background() {
    // A new buffer is all zero: black by red, green and blue, alpha zero.
    let img = DynamicImage::ImageRgba8(RgbaImage::new(4, 3));
    assert_eq!(parse_image(&img).len(), 0);
}

#[test]
fn all_white_has_no_regions() {
    let img = DynamicImage::ImageRgba8(RgbaImage::from_pixel(5, 4, Rgba(WHITE)));
    assert_eq!(parse_image(&img).len(), 0);
}

#[test]
fn all_black_has_no_regions() {
    let img = DynamicImage::ImageRgba8(RgbaImage::from_pixel(5, 4, Rgba(BLACK)));
    assert_eq!(parse_image(&img).len(), 0);
}

#[test]
fn mixed_white_and_black_has_no_regions() {
    let img = image_of(&[&[WHITE, BLACK, WHITE], &[BLACK, WHITE, BLACK]]);
    assert_eq!(parse_image(&img).len(), 0);
}

#[test]
fn diagonal_pixels_are_two_regions() {
    let img = image_of(&[&[GREEN, WHITE], &[BLACK, GREEN]]);
    let regions = parse_image(&img);
    assert_eq!(
        regions,
        vec![
            Region { color: GREEN, bounds: (0, 0, 0, 0) },
            Region { color: GREEN, bounds: (1, 1, 1, 1) },
        ]
    );
}

#[test]
fn anti_diagonal_pixels_are_two_regions() {
    let img = image_of(&[&[WHITE, BLUE], &[BLUE, WHITE]]);
    let regions = parse_image(&img);
    assert_eq!(
        regions,
        vec![
            Region { color: BLUE, bounds: (0, 1, 0, 1) },
            Region { color: BLUE, bounds: (1, 0, 1, 0) },
        ]
    );
}

#[test]
fn diagonal_pixels_joined_the_long_way_round_are_one_region() {
    // (1, 0) and (2, 1) touch at a corner only, and both pixels next to
    // both of them are white, yet a chain of red pixels joins them.
    let img = image_of(&[
        &[RED, RED, WHITE],
        &[RED, WHITE, RED],
        &[RED, RED, RED],
    ]);
    let regions = parse_image(&img);
    assert_eq!(regions, vec![Region { color: RED, bounds: (0, 0, 2, 2) }]);
}

#[test]
fn background_test_ignores_alpha() {
    let faint_white = [255, 255, 255, 10];
    let clear_black = [0, 0, 0, 0];
    let img = image_of(&[&[faint_white, clear_black, RED]]);
    let regions = parse_image(&img);
    assert_eq!(regions, vec![Region { color: RED, bounds: (2, 0, 2, 0) }]);
}

#[test]
fn fill_membership_looks_at_alpha() {
    let solid = [40, 50, 60, 255];
    let faint = [40, 50, 60, 100];
    let img = image_of(&[&[solid, solid, faint, faint, solid]]);
    let regions = parse_image(&img);
    assert_eq!(
        regions,
        vec![
            Region { color: solid, bounds: (0, 0, 1, 0) },
            Region { color: faint, bounds: (2, 0, 3, 0) },
            Region { color: solid, bounds: (4, 0, 4, 0) },
        ]
    );
}

#[test]
fn near_white_and_near_black_are_foreground() {
    let near_white = [255, 255, 254, 255];
    let near_black = [0, 1, 0, 255];
    let img = image_of(&[&[near_white, WHITE, near_black]]);
    let regions = parse_image(&img);
    assert_eq!(
        regions,
        vec![
            Region { color: near_white, bounds: (0, 0, 0, 0) },
            Region { color: near_black, bounds: (2, 0, 2, 0) },
        ]
    );
}

#[test]
fn regions_come_in_column_order() {
    // The scan goes down the first column before it enters the second, so
    // the blue pixel at (0, 1) is found before the red one at (1, 0).
    let img = image_of(&[&[WHITE, RED], &[BLUE, WHITE]]);
    let regions = parse_image(&img);
    assert_eq!(
        regions,
        vec![
            Region { color: BLUE, bounds: (0, 1, 0, 1) },
            Region { color: RED, bounds: (1, 0, 1, 0) },
        ]
    );
}

#[test]
fn whole_image_of_one_color_is_one_region() {
    let img = DynamicImage::ImageRgba8(RgbaImage::from_pixel(7, 3, Rgba(GREEN)));
    let regions = parse_image(&img);
    assert_eq!(regions, vec![Region { color: GREEN, bounds: (0, 0, 6, 2) }]);
}

#[test]
fn bounding_box_of_an_l_shape_is_tight() {
    let img = image_of(&[
        &[WHITE, WHITE, WHITE, WHITE, WHITE],
        &[WHITE, RED, WHITE, WHITE, WHITE],
        &[WHITE, RED, WHITE, WHITE, WHITE],
        &[WHITE, RED, RED, RED, WHITE],
        &[WHITE, WHITE, WHITE, WHITE, WHITE],
    ]);
    let regions = parse_image(&img);
    assert_eq!(regions, vec![Region { color: RED, bounds: (1, 1, 3, 3) }]);
    let (min_x, min_y, max_x, max_y) = regions[0].bounds;
    // Each edge of the box holds a pixel of the region's color.
    assert!((min_y..=max_y).any(|y| pixel(&img, min_x, y) == RED));
    assert!((min_y..=max_y).any(|y| pixel(&img, max_x, y) == RED));
    assert!((min_x..=max_x).any(|x| pixel(&img, x, min_y) == RED));
    assert!((min_x..=max_x).any(|x| pixel(&img, x, max_y) == RED));
    // No pixel of that color lies outside the box.
    for x in 0..5 {
        for y in 0..5 {
            if pixel(&img, x, y) == RED {
                assert!(min_x <= x && x <= max_x && min_y <= y && y <= max_y);
            }
        }
    }
}

#[test]
fn fill_goes_around_corners() {
    // A ring of red around a blue pixel: the ring is one region although its
    // first column and its last are joined only through the rows between.
    let img = image_of(&[
        &[RED, RED, RED],
        &[RED, BLUE, RED],
        &[RED, RED, RED],
    ]);
    let regions = parse_image(&img);
    assert_eq!(
        regions,
        vec![
            Region { color: RED, bounds: (0, 0, 2, 2) },
            Region { color: BLUE, bounds: (1, 1, 1, 1) },
        ]
    );
}

#[test]
fn spiral_is_one_region() {
    let o = WHITE;
    let r = RED;
    let img = image_of(&[
        &[r, r, r, r, r],
        &[o, o, o, o, r],
        &[r, r, r, o, r],
        &[r, o, o, o, r],
        &[r, r, r, r, r],
    ]);
    let regions = parse_image(&img);
    assert_eq!(regions, vec![Region { color: RED, bounds: (0, 0, 4, 4) }]);
}

#[test]
fn regions_of_different_colors_side_by_side() {
    let img = image_of(&[
        &[RED, RED, GREEN],
        &[RED, BLUE, GREEN],
        &[BLACK, BLUE, GREEN],
    ]);
    let regions = parse_image(&img);
    assert_eq!(
        regions,
        vec![
            Region { color: RED, bounds: (0, 0, 1, 1) },
            Region { color: BLUE, bounds: (1, 1, 1, 2) },
            Region { color: GREEN, bounds: (2, 0, 2, 2) },
        ]
    );
}

#[test]
fn wide_image_uses_width_and_height_the_right_way_round() {
    let mut buffer = RgbaImage::from_pixel(9, 2, Rgba(WHITE));
    buffer.put_pixel(8, 1, Rgba(BLUE));
    buffer.put_pixel(7, 1, Rgba(BLUE));
    let img = DynamicImage::ImageRgba8(buffer);
    let regions = parse_image(&img);
    assert_eq!(regions, vec![Region { color: BLUE, bounds: (7, 1, 8, 1) }]);

    let mut buffer = RgbaImage::from_pixel(2, 9, Rgba(WHITE));
    buffer.put_pixel(1, 8, Rgba(BLUE));
    buffer.put_pixel(1, 7, Rgba(BLUE));
    let img = DynamicImage::ImageRgba8(buffer);
    let regions = parse_image(&img);
    assert_eq!(regions, vec![Region { color: BLUE, bounds: (1, 7, 1, 8) }]);
}

#[test]
fn detection_is_the_same_on_every_run() {
    let img = image_of(&[
        &[RED, WHITE, GREEN, GREEN],
        &[RED, BLUE, BLACK, GREEN],
        &[WHITE, BLUE, RED, RED],
    ]);
    let first = parse_image(&img);
    let second = parse_image(&img);
    assert_eq!(first, second);
    assert_eq!(first.len(), 4);
    let copy = img.clone();
    assert_eq!(parse_image(&copy), first);
}

#[test]
fn every_foreground_pixel_is_in_exactly_one_region() {
    let img = image_of(&[
        &[RED, WHITE, GREEN, GREEN, RED],
        &[RED, BLUE, BLACK, GREEN, RED],
        &[WHITE, BLUE, RED, RED, WHITE],
        &[GREEN, WHITE, RED, BLACK, BLUE],
    ]);
    let (width, height) = (5u32, 4u32);
    let regions = parse_image(&img);

    // Fill each region again, from its first pixel in scan order, on one
    // shared mask, and count how often each pixel is claimed.
    let mut claims = vec![vec![0u32; height as usize]; width as usize];
    let mut mask = VisitedMask::new(width, height);
    let mut refilled = Vec::new();
    for x in 0..width {
        for y in 0..height {
            let color = pixel(&img, x, y);
            if is_background(color) || mask.is_visited(x, y) {
                continue;
            }
            let mut alone = VisitedMask::new(width, height);
            let bounds = flood_fill(&img, &mut alone, x, y, color);
            for px in 0..width {
                for py in 0..height {
                    if alone.is_visited(px, py) {
                        claims[px as usize][py as usize] += 1;
                        assert_eq!(pixel(&img, px, py), color);
                    }
                }
            }
            let again = flood_fill(&img, &mut mask, x, y, color);
            assert_eq!(again, bounds);
            refilled.push(Region { color, bounds });
        }
    }
    assert_eq!(refilled, regions);
    assert_eq!(regions.len(), 7);
    for x in 0..width {
        for y in 0..height {
            let expected = if is_background(pixel(&img, x, y)) { 0 } else { 1 };
            assert_eq!(claims[x as usize][y as usize], expected);
            assert_eq!(mask.is_visited(x, y), expected == 1);
        }
    }
}

#[test]
fn rgb_image_is_read_with_full_alpha() {
    let mut buffer = RgbImage::from_pixel(3, 1, Rgb([255, 255, 255]));
    buffer.put_pixel(1, 0, Rgb([9, 8, 7]));
    let img = DynamicImage::ImageRgb8(buffer);
    let regions = parse_image(&img);
    assert_eq!(regions, vec![Region { color: [9, 8, 7, 255], bounds: (1, 0, 1, 0) }]);
}

#[test]
fn gray_image_is_read_as_gray_rgba() {
    let mut buffer = GrayImage::from_pixel(2, 2, Luma([0]));
    buffer.put_pixel(0, 1, Luma([77]));
    buffer.put_pixel(1, 1, Luma([77]));
    let img = DynamicImage::ImageLuma8(buffer);
    let regions = parse_image(&img);
    assert_eq!(regions, vec![Region { color: [77, 77, 77, 255], bounds: (0, 1, 1, 1) }]);
}

#[test]
fn try_parse_image_agrees_with_parse_image() {
    let img = image_of(&[&[RED, RED, WHITE, RED], &[WHITE, GREEN, GREEN, RED]]);
    let found = try_parse_image(&img);
    assert_eq!(found, Some(parse_image(&img)));
    assert_eq!(
        found,
        Some(vec![
            Region { color: RED, bounds: (0, 0, 1, 0) },
            Region { color: GREEN, bounds: (1, 1, 2, 1) },
            Region { color: RED, bounds: (3, 0, 3, 1) },
        ])
    );
}
