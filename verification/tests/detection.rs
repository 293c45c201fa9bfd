use image::{DynamicImage, GrayImage, Luma, Rgba, RgbaImage};
use pixel_unscale::{detect_block_size, gcd};

const BLACK: Rgba<u8> = Rgba([0, 0, 0, 255]);
const WHITE: Rgba<u8> = Rgba([255, 255, 255, 255]);

/// A board of `cells_wide` by `cells_high` squares of side `k`, black and
/// white in turn.
fn checkerboard(cells_wide: u32, cells_high: u32, k: u32) -> DynamicImage {
    let board = RgbaImage::from_fn(cells_wide * k, cells_high * k, |x, y| {
        if (x / k + y / k) % 2 == 0 {
            BLACK
        } else {
            WHITE
        }
    });
    DynamicImage::ImageRgba8(board)
}

fn solid(width: u32, height: u32) -> DynamicImage {
    DynamicImage::ImageRgba8(RgbaImage::from_pixel(width, height, Rgba([40, 80, 120, 255])))
}

#[test]
fn checkerboard_of_single_pixels_has_block_size_1() {
    assert_eq!(detect_block_size(&checkerboard(4, 3, 1)), Some(1));
}

#[test]
fn checkerboard_of_2_by_2_blocks_has_block_size_2() {
    assert_eq!(detect_block_size(&checkerboard(4, 3, 2)), Some(2));
}

#[test]
fn checkerboard_of_3_by_3_blocks_has_block_size_3() {
    assert_eq!(detect_block_size(&checkerboard(4, 3, 3)), Some(3));
}

#[test]
fn checkerboard_of_5_by_5_blocks_has_block_size_5() {
    assert_eq!(detect_block_size(&checkerboard(4, 3, 5)), Some(5));
}

#[test]
fn checkerboard_of_8_by_8_blocks_has_block_size_8() {
    assert_eq!(detect_block_size(&checkerboard(4, 3, 8)), Some(8));
}

#[test]
fn checkerboard_of_one_cell_has_its_side_as_block_size() {
    assert_eq!(detect_block_size(&checkerboard(1, 1, 7)), Some(7));
}

#[test]
fn solid_image_has_gcd_of_width_and_height() {
    let sizes: [(u32, u32); 8] =
        [(4, 6), (6, 4), (5, 5), (7, 3), (12, 18), (1, 1), (1, 9), (64, 48)];
    for (width, height) in sizes {
        assert_eq!(detect_block_size(&solid(width, height)), Some(gcd(width, height)));
    }
}

#[test]
fn solid_4_by_6_image_has_block_size_2() {
    assert_eq!(detect_block_size(&solid(4, 6)), Some(2));
}

#[test]
fn image_without_pixels_has_no_block_size() {
    assert_eq!(detect_block_size(&DynamicImage::new_rgba8(0, 0)), None);
}

#[test]
fn image_without_width_has_no_block_size() {
    assert_eq!(detect_block_size(&DynamicImage::new_rgba8(0, 5)), None);
}

#[test]
fn image_without_height_has_no_block_size() {
    assert_eq!(detect_block_size(&DynamicImage::new_rgba8(5, 0)), None);
}

#[test]
fn single_row_is_cut_down_by_its_columns() {
    // Runs of 2, 2 and 2 along the row, but every column is one run of 1.
    let row = RgbaImage::from_fn(6, 1, |x, _| Rgba([(x / 2) as u8, 0, 0, 255]));
    assert_eq!(detect_block_size(&DynamicImage::ImageRgba8(row)), Some(1));
}

#[test]
fn single_column_is_cut_down_by_its_rows() {
    let column = RgbaImage::from_fn(1, 6, |_, y| Rgba([0, (y / 3) as u8, 0, 255]));
    assert_eq!(detect_block_size(&DynamicImage::ImageRgba8(column)), Some(1));
}

#[test]
fn run_lengths_4_and_6_give_block_size_2() {
    // Each row holds a run of 4 and a run of 6; each column is one run of 2.
    let img = RgbaImage::from_fn(10, 2, |x, _| if x < 4 { BLACK } else { WHITE });
    assert_eq!(detect_block_size(&DynamicImage::ImageRgba8(img)), Some(2));
}

#[test]
fn rows_and_columns_are_combined() {
    // Rows: runs of 6 and 6. Columns: runs of 4 and 4. The common divisor is 2.
    let img = RgbaImage::from_fn(12, 8, |x, y| {
        if (x / 6 + y / 4) % 2 == 0 {
            BLACK
        } else {
            WHITE
        }
    });
    assert_eq!(detect_block_size(&DynamicImage::ImageRgba8(img)), Some(2));
}

#[test]
fn one_odd_pixel_brings_the_block_size_to_1() {
    let mut board = RgbaImage::from_fn(8, 8, |x, y| {
        if (x / 4 + y / 4) % 2 == 0 {
            BLACK
        } else {
            WHITE
        }
    });
    board.put_pixel(5, 2, Rgba([9, 9, 9, 255]));
    assert_eq!(detect_block_size(&DynamicImage::ImageRgba8(board)), Some(1));
}

#[test]
fn colours_that_differ_in_alpha_alone_are_told_apart() {
    let img = RgbaImage::from_fn(4, 4, |x, _| {
        if x < 2 {
            Rgba([10, 20, 30, 255])
        } else {
            Rgba([10, 20, 30, 0])
        }
    });
    assert_eq!(detect_block_size(&DynamicImage::ImageRgba8(img)), Some(2));
}

#[test]
fn colours_that_differ_in_one_channel_by_one_are_told_apart() {
    let img = RgbaImage::from_fn(6, 6, |_, y| {
        if y < 3 {
            Rgba([200, 100, 50, 255])
        } else {
            Rgba([200, 100, 51, 255])
        }
    });
    assert_eq!(detect_block_size(&DynamicImage::ImageRgba8(img)), Some(3));
}

#[test]
fn equal_neighbouring_blocks_still_give_a_multiple() {
    // A row of cells coloured A A B: the first run is twice the block side.
    let img = RgbaImage::from_fn(9, 3, |x, _| if x / 3 < 2 { BLACK } else { WHITE });
    assert_eq!(detect_block_size(&DynamicImage::ImageRgba8(img)), Some(3));
}

#[test]
fn grayscale_image_is_read_through_its_rgba_view() {
    let gray = GrayImage::from_fn(6, 6, |x, y| {
        if (x / 3 + y / 3) % 2 == 0 {
            Luma([10])
        } else {
            Luma([200])
        }
    });
    assert_eq!(detect_block_size(&DynamicImage::ImageLuma8(gray)), Some(3));
}

#[test]
fn detection_leaves_the_image_as_it_was() {
    let img = checkerboard(3, 3, 4);
    let before = img.clone();
    assert_eq!(detect_block_size(&img), Some(4));
    assert_eq!(img, before);
}
