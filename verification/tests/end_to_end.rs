use image::{DynamicImage, GenericImageView, Rgba, RgbaImage};
use pixel_unscale::{detect_block_size, downsample_image, try_downsample_image};

const RED: Rgba<u8> = Rgba([255, 0, 0, 255]);
const GREEN: Rgba<u8> = Rgba([0, 255, 0, 255]);
const BLUE: Rgba<u8> = Rgba([0, 0, 255, 255]);
const YELLOW: Rgba<u8> = Rgba([255, 255, 0, 255]);

fn four_blocks() -> DynamicImage {
    let img = RgbaImage::from_fn(4, 4, |x, y| match (x / 2, y / 2) {
        (0, 0) => RED,
        (1, 0) => GREEN,
        (0, 1) => BLUE,
        _ => YELLOW,
    });
    DynamicImage::ImageRgba8(img)
}

#[test]
fn four_blocks_are_detected_and_restored() {
    let img = four_blocks();
    let block_size = detect_block_size(&img);
    assert_eq!(block_size, Some(2));

    let small = downsample_image(&img, 2);
    assert_eq!(small.dimensions(), (2, 2));
    let pixels: Vec<Rgba<u8>> = small.to_rgba8().pixels().copied().collect();
    assert_eq!(pixels, vec![RED, GREEN, BLUE, YELLOW]);
}

#[test]
fn four_blocks_pixel_by_pixel() {
    let small = downsample_image(&four_blocks(), 2);
    assert_eq!(small.get_pixel(0, 0), RED);
    assert_eq!(small.get_pixel(1, 0), GREEN);
    assert_eq!(small.get_pixel(0, 1), BLUE);
    assert_eq!(small.get_pixel(1, 1), YELLOW);
}

#[test]
fn detected_size_restores_scaled_art() {
    // No two pixels of the art that touch share a colour.
    let art = RgbaImage::from_fn(6, 5, |x, y| Rgba([(x * 40) as u8, (y * 50) as u8, 128, 255]));
    let factors: [u32; 5] = [1, 2, 3, 5, 8];
    for k in factors {
        let big = RgbaImage::from_fn(6 * k, 5 * k, |x, y| *art.get_pixel(x / k, y / k));
        let big = DynamicImage::ImageRgba8(big);
        assert_eq!(detect_block_size(&big), Some(k));
        let small = try_downsample_image(&big, k);
        assert_eq!(small, Some(DynamicImage::ImageRgba8(art.clone())));
    }
}

#[test]
fn solid_image_shrinks_to_a_strip() {
    let img = DynamicImage::ImageRgba8(RgbaImage::from_pixel(4, 6, BLUE));
    assert_eq!(detect_block_size(&img), Some(2));
    let small = downsample_image(&img, 2);
    assert_eq!(small, DynamicImage::ImageRgba8(RgbaImage::from_pixel(2, 3, BLUE)));
}
