use image::{DynamicImage, GenericImageView, GrayImage, Luma, Rgb, RgbImage, Rgba, RgbaImage};
use pixel_unscale::{downsample_image, try_downsample_image};

/// A colour that is different at every coordinate of a small image.
fn colour_of(x: u32, y: u32) -> Rgba<u8> {
    Rgba([(x * 17 + 3) as u8, (y * 29 + 5) as u8, (x * 7 + y * 11) as u8, (255 - x - y) as u8])
}

fn art(width: u32, height: u32) -> RgbaImage {
    RgbaImage::from_fn(width, height, colour_of)
}

/// Replaces every pixel of `small` by a `k` by `k` block of its colour.
fn upscale(small: &RgbaImage, k: u32) -> DynamicImage {
    let big = RgbaImage::from_fn(small.width() * k, small.height() * k, |x, y| {
        *small.get_pixel(x / k, y / k)
    });
    DynamicImage::ImageRgba8(big)
}

fn assert_shows(img: &DynamicImage, expected: &RgbaImage) {
    assert_eq!(img.dimensions(), expected.dimensions());
    for y in 0..expected.height() {
        for x in 0..expected.width() {
            assert_eq!(img.get_pixel(x, y), *expected.get_pixel(x, y));
        }
    }
}

#[test]
fn downsampling_undoes_upscaling_by_1() {
    let small = art(5, 4);
    assert_shows(&downsample_image(&upscale(&small, 1), 1), &small);
}

#[test]
fn downsampling_undoes_upscaling_by_2() {
    let small = art(5, 4);
    assert_shows(&downsample_image(&upscale(&small, 2), 2), &small);
}

#[test]
fn downsampling_undoes_upscaling_by_3() {
    let small = art(3, 7);
    assert_shows(&downsample_image(&upscale(&small, 3), 3), &small);
}

#[test]
fn downsampling_undoes_upscaling_by_8() {
    let small = art(6, 2);
    assert_shows(&downsample_image(&upscale(&small, 8), 8), &small);
}

#[test]
fn downsampling_undoes_upscaling_of_equal_neighbours() {
    let small = RgbaImage::from_fn(4, 4, |x, _| Rgba([(x / 2) as u8, 0, 0, 255]));
    assert_shows(&downsample_image(&upscale(&small, 5), 5), &small);
}

#[test]
fn downsampled_size_is_rounded_down() {
    let img = DynamicImage::ImageRgba8(art(7, 5));
    assert_eq!(downsample_image(&img, 2).dimensions(), (3, 2));
    assert_eq!(downsample_image(&img, 3).dimensions(), (2, 1));
    assert_eq!(downsample_image(&img, 4).dimensions(), (1, 1));
    assert_eq!(downsample_image(&img, 5).dimensions(), (1, 1));
    assert_eq!(downsample_image(&img, 7).dimensions(), (1, 0));
    assert_eq!(downsample_image(&img, 1).dimensions(), (7, 5));
}

#[test]
fn block_size_beyond_the_image_gives_an_empty_image() {
    let img = DynamicImage::ImageRgba8(art(7, 5));
    assert_eq!(downsample_image(&img, 8).dimensions(), (0, 0));
    assert_eq!(downsample_image(&img, u32::MAX).dimensions(), (0, 0));
}

#[test]
fn downsampling_takes_the_top_left_pixel_of_each_block() {
    let img = DynamicImage::ImageRgba8(art(7, 5));
    let small = downsample_image(&img, 2);
    assert_eq!(small.dimensions(), (3, 2));
    for j in 0..2 {
        for i in 0..3 {
            assert_eq!(small.get_pixel(i, j), colour_of(i * 2, j * 2));
        }
    }
}

#[test]
fn trailing_partial_blocks_are_dropped() {
    let img = DynamicImage::ImageRgba8(art(8, 8));
    let small = downsample_image(&img, 3);
    let expected = RgbaImage::from_fn(2, 2, |i, j| colour_of(i * 3, j * 3));
    assert_shows(&small, &expected);
}

#[test]
fn downsampling_by_1_copies_the_image() {
    let picture = art(4, 3);
    assert_shows(&downsample_image(&DynamicImage::ImageRgba8(picture.clone()), 1), &picture);
}

#[test]
fn downsampling_an_image_without_pixels_gives_one_without_pixels() {
    assert_eq!(downsample_image(&DynamicImage::new_rgba8(0, 0), 3).dimensions(), (0, 0));
    assert_eq!(downsample_image(&DynamicImage::new_rgba8(0, 9), 3).dimensions(), (0, 3));
    assert_eq!(downsample_image(&DynamicImage::new_rgba8(9, 0), 3).dimensions(), (3, 0));
}

#[test]
fn downsampling_gives_an_rgba_image() {
    let rgb = RgbImage::from_fn(4, 4, |x, y| Rgb([(x / 2) as u8 * 100, (y / 2) as u8 * 100, 7]));
    let small = downsample_image(&DynamicImage::ImageRgb8(rgb), 2);
    let expected = RgbaImage::from_fn(2, 2, |i, j| Rgba([i as u8 * 100, j as u8 * 100, 7, 255]));
    assert_shows(&small, &expected);
    assert!(small.as_rgba8().is_some());
}

#[test]
fn downsampling_a_grayscale_image_spreads_its_value() {
    let gray = GrayImage::from_fn(6, 3, |x, _| Luma([(x / 3) as u8 * 90 + 20]));
    let small = downsample_image(&DynamicImage::ImageLuma8(gray), 3);
    let expected = RgbaImage::from_fn(2, 1, |i, _| {
        let value: u8 = i as u8 * 90 + 20;
        Rgba([value, value, value, 255])
    });
    assert_shows(&small, &expected);
}

#[test]
fn downsampling_leaves_the_image_as_it_was() {
    let img = upscale(&art(3, 3), 2);
    let before = img.clone();
    let _ = downsample_image(&img, 2);
    assert_eq!(img, before);
}

#[test]
fn block_size_0_is_turned_down() {
    let img = DynamicImage::ImageRgba8(art(4, 4));
    assert!(try_downsample_image(&img, 0).is_none());
    assert!(try_downsample_image(&DynamicImage::new_rgba8(0, 0), 0).is_none());
}

#[test]
fn try_downsample_agrees_with_downsample() {
    let img = upscale(&art(5, 3), 4);
    for block_size in 1..=21 {
        let tried = try_downsample_image(&img, block_size);
        assert_eq!(tried, Some(downsample_image(&img, block_size)));
    }
}

#[test]
fn very_wide_image_without_rows_is_taken_where_a_row_can_be_counted() {
    // No pixel is stored, but one row of the result would hold 4 GiB.
    let width: u32 = 1 << 30;
    let wide = DynamicImage::new_luma8(width, 0);
    let row_can_be_counted: bool = 4 * (width as u64) <= usize::MAX as u64;
    let small = try_downsample_image(&wide, 1);
    assert_eq!(small.is_some(), row_can_be_counted);
    if let Some(empty) = small {
        assert_eq!(empty.dimensions(), (width, 0));
    }
}

#[test]
fn very_wide_image_without_rows_shrinks_to_a_countable_row() {
    let wide = DynamicImage::new_luma8(1 << 30, 0);
    let small = try_downsample_image(&wide, 1 << 10);
    assert_eq!(small.map(|s| s.dimensions()), Some((1 << 20, 0)));
}
