//! Downsampling: one pixel for each block of the detected size.

use crate::grid::{is_upscaled, same_picture, Grid};
use crate::raster::{
    buffer_fits, buffer_grid, buffer_height, buffer_width, color_at, dimensions, image_grid,
    image_height, image_width, into_image, new_buffer, put_color,
};
use image::DynamicImage;
use vstd::arithmetic::div_mod::{lemma_div_by_multiple, lemma_fundamental_div_mod};
use vstd::arithmetic::mul::{lemma_mul_inequality, lemma_mul_strict_inequality};
use vstd::prelude::*;

verus! {

/// `small` holds one pixel for each whole `block_size` by `block_size` block
/// of `big`: the pixel in the block's top left corner. What lies right of or
/// below the last whole block of `big` is left out.
pub open spec fn is_downsampled(small: Grid, big: Grid, block_size: int) -> bool {
    &&& block_size > 0
    &&& small.width == big.width as int / block_size
    &&& small.height == big.height as int / block_size
    &&& forall|i: int, j: int|
        small.contains(i, j)
            ==> #[trigger] small.at(i, j) == big.at(i * block_size, j * block_size)
}

/// `grid` can be downsampled by `block_size`: the block size is not 0, and an
/// RGBA buffer for the result can be held in one vector.
pub open spec fn can_downsample(grid: Grid, block_size: int) -> bool {
    block_size > 0 && buffer_fits(
        grid.width as int / block_size,
        grid.height as int / block_size,
    )
}

/// The top left corner of block `index` lies inside an extent that holds
/// more than `index` whole blocks.
proof fn lemma_block_corner(index: int, block_size: int, extent: int)
    requires
        block_size > 0,
        0 <= index < extent / block_size,
    ensures
        0 <= index * block_size,
        index * block_size + block_size <= extent,
{
    let blocks: int = extent / block_size;
    lemma_fundamental_div_mod(extent, block_size);
    lemma_mul_inequality(index + 1, blocks, block_size);
    assert((index + 1) * block_size == index * block_size + block_size) by (nonlinear_arith);
    assert(block_size * blocks == blocks * block_size) by (nonlinear_arith);
    assert(0 <= index * block_size) by (nonlinear_arith)
        requires
            0 <= index,
            0 < block_size,
    ;
}

/// The top left corner of cell `i` falls into cell `i`.
proof fn lemma_corner_cell(i: int, count: int, k: int)
    requires
        k > 0,
        0 <= i < count,
    ensures
        0 <= i * k < count * k,
        (i * k) / k == i,
{
    lemma_div_by_multiple(i, k);
    lemma_mul_strict_inequality(i, count, k);
    lemma_mul_inequality(0, i, k);
}

/// Downsampling by `k` undoes scaling up by `k`: it gives back the picture
/// that was scaled up, pixel for pixel.
pub proof fn lemma_downsample_inverts_upscale(out: Grid, big: Grid, small: Grid, k: int)
    requires
        is_upscaled(big, small, k),
        is_downsampled(out, big, k),
    ensures
        same_picture(out, small),
{
    lemma_div_by_multiple(small.width as int, k);
    lemma_div_by_multiple(small.height as int, k);
    assert forall|x: int, y: int| out.contains(x, y)
    implies #[trigger] out.at(x, y) == small.at(x, y) by {
        lemma_corner_cell(x, small.width as int, k);
        lemma_corner_cell(y, small.height as int, k);
        assert(big.contains(x * k, y * k));
        assert(big.at(x * k, y * k) == small.at((x * k) / k, (y * k) / k));
    }
}

/// Tells whether an RGBA buffer of the given size can be held in one vector.
fn fits(width: u32, height: u32) -> (yes: bool)
    ensures
        yes == buffer_fits(width as int, height as int),
{
    assert(width * height <= 0xFFFF_FFFF * 0xFFFF_FFFF) by (nonlinear_arith)
        requires
            width <= 0xFFFF_FFFF,
            height <= 0xFFFF_FFFF,
    ;
    let row_bytes: u64 = 4 * (width as u64);
    let pixels: u64 = width as u64 * height as u64;
    assert(4 * width * height == 4 * (width * height)) by (nonlinear_arith);
    row_bytes <= usize::MAX as u64 && pixels <= isize::MAX as u64 / 4
}

/// While the buffer is filled row by row: its first `rows` rows, and the
/// first `columns` pixels of the row after them, hold their samples.
spec fn sampled_up_to(small: Grid, big: Grid, block_size: int, rows: int, columns: int) -> bool {
    forall|i: int, j: int|
        small.contains(i, j) && (j < rows || (j == rows && i < columns))
            ==> #[trigger] small.at(i, j) == big.at(i * block_size, j * block_size)
}

/// Putting the sample for `(column, row)` in place extends what is filled by
/// that pixel.
proof fn lemma_sample_put(
    before: Grid,
    after: Grid,
    big: Grid,
    block_size: int,
    row: int,
    column: int,
)
    requires
        sampled_up_to(before, big, block_size, row, column),
        after.width == before.width,
        after.height == before.height,
        after.colors
            == before.colors.insert((column, row), big.at(column * block_size, row * block_size)),
    ensures
        sampled_up_to(after, big, block_size, row, column + 1),
{
    assert forall|i: int, j: int|
        after.contains(i, j) && (j < row || (j == row && i < column + 1))
    implies #[trigger] after.at(i, j) == big.at(i * block_size, j * block_size) by {
        if i != column || j != row {
            assert(after.at(i, j) == before.at(i, j));
        }
    }
}

/// Shrinks `img` by taking the top left pixel of each `block_size` by
/// `block_size` block, row by row.
///
/// The result is as wide and as high as `img` holds whole blocks, and where
/// `img` is some picture scaled up by `block_size`, the result shows that
/// picture.
#[verifier::loop_isolation(false)]
pub fn downsample_image(img: &DynamicImage, block_size: u32) -> (small: DynamicImage)
    requires
        can_downsample(image_grid(*img), block_size as int),
    ensures
        is_downsampled(image_grid(small), image_grid(*img), block_size as int),
        image_width(small) == image_width(*img) as int / block_size as int,
        image_height(small) == image_height(*img) as int / block_size as int,
        forall|art: Grid| #[trigger]
            is_upscaled(image_grid(*img), art, block_size as int)
                ==> same_picture(image_grid(small), art),
{
    let (width, height): (u32, u32) = dimensions(img);
    let new_width: u32 = width / block_size;
    let new_height: u32 = height / block_size;

    let mut new_img = new_buffer(new_width, new_height);

    for j in 0..new_height
        invariant
            buffer_width(new_img) == new_width,
            buffer_height(new_img) == new_height,
            sampled_up_to(buffer_grid(new_img), image_grid(*img), block_size as int, j as int, 0),
    {
        for i in 0..new_width
            invariant
                buffer_width(new_img) == new_width,
                buffer_height(new_img) == new_height,
                sampled_up_to(
                    buffer_grid(new_img),
                    image_grid(*img),
                    block_size as int,
                    j as int,
                    i as int,
                ),
        {
            proof {
                lemma_block_corner(i as int, block_size as int, width as int);
                lemma_block_corner(j as int, block_size as int, height as int);
            }
            let ghost before = buffer_grid(new_img);
            let pixel = color_at(img, i * block_size, j * block_size);
            put_color(&mut new_img, i, j, pixel);
            proof {
                lemma_sample_put(
                    before,
                    buffer_grid(new_img),
                    image_grid(*img),
                    block_size as int,
                    j as int,
                    i as int,
                );
            }
        }
    }
    let ghost filled = buffer_grid(new_img);
    let small = into_image(new_img);
    proof {
        assert forall|i: int, j: int| image_grid(small).contains(i, j)
        implies #[trigger] image_grid(small).at(i, j)
            == image_grid(*img).at(i * block_size, j * block_size) by {
            assert(image_grid(small).at(i, j) == filled.at(i, j));
        }
        assert forall|art: Grid| #[trigger]
            is_upscaled(image_grid(*img), art, block_size as int)
        implies same_picture(image_grid(small), art) by {
            lemma_downsample_inverts_upscale(
                image_grid(small),
                image_grid(*img),
                art,
                block_size as int,
            );
        }
    }
    small
}

/// Shrinks `img` like `downsample_image`, or gives `None` where that cannot
/// be done: for a block size of 0, and for a result too large for one vector.
pub fn try_downsample_image(img: &DynamicImage, block_size: u32) -> (small: Option<DynamicImage>)
    ensures
        small is Some <==> can_downsample(image_grid(*img), block_size as int),
        small matches Some(s)
            ==> is_downsampled(image_grid(s), image_grid(*img), block_size as int),
        small matches Some(s)
            ==> image_width(s) == image_width(*img) as int / block_size as int
                && image_height(s) == image_height(*img) as int / block_size as int,
        small matches Some(s) ==> forall|art: Grid| #[trigger]
            is_upscaled(image_grid(*img), art, block_size as int)
                ==> same_picture(image_grid(s), art),
{
    if block_size == 0 {
        return None;
    }
    let (width, height): (u32, u32) = dimensions(img);
    if fits(width / block_size, height / block_size) {
        Some(downsample_image(img, block_size))
    } else {
        None
    }
}

} // verus!
