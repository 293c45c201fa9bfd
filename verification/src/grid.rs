//! The mathematical model of an image: a rectangle of RGBA colours.

use vstd::prelude::*;

verus! {

/// An RGBA colour with four 8-bit channels.
#[derive(Clone, Copy, Debug, PartialEq, Eq, Structural)]
pub struct Color {
    pub red: u8,
    pub green: u8,
    pub blue: u8,
    pub alpha: u8,
}

impl Color {
    /// Black without any opacity: every channel is 0.
    pub open spec fn transparent() -> Color {
        Color { red: 0, green: 0, blue: 0, alpha: 0 }
    }
}

/// A `width` by `height` rectangle of colours, addressed by `(x, y)` from the top left.
///
/// Only the entries with `0 <= x < width` and `0 <= y < height` carry meaning.
pub struct Grid {
    pub width: nat,
    pub height: nat,
    pub colors: Map<(int, int), Color>,
}

impl Grid {
    /// Whether `(x, y)` lies inside the rectangle.
    pub open spec fn contains(self, x: int, y: int) -> bool {
        0 <= x < self.width && 0 <= y < self.height
    }

    /// The colour at `(x, y)`.
    pub open spec fn at(self, x: int, y: int) -> Color {
        self.colors[(x, y)]
    }

    /// Row `y`, read from left to right.
    pub open spec fn row(self, y: int) -> Seq<Color> {
        Seq::new(self.width, |x: int| self.at(x, y))
    }

    /// Column `x`, read from top to bottom.
    pub open spec fn column(self, x: int) -> Seq<Color> {
        Seq::new(self.height, |y: int| self.at(x, y))
    }
}

/// `big` is `small` scaled up by `k`: each pixel of `small` has become a
/// `k` by `k` block of its colour.
pub open spec fn is_upscaled(big: Grid, small: Grid, k: int) -> bool {
    &&& k > 0
    &&& big.width == small.width * k
    &&& big.height == small.height * k
    &&& forall|x: int, y: int|
        big.contains(x, y) ==> #[trigger] big.at(x, y) == small.at(x / k, y / k)
}

/// Two grids show the same picture: they have the same size and the same
/// colour at every coordinate inside it.
pub open spec fn same_picture(a: Grid, b: Grid) -> bool {
    &&& a.width == b.width
    &&& a.height == b.height
    &&& forall|x: int, y: int| a.contains(x, y) ==> #[trigger] a.at(x, y) == b.at(x, y)
}

} // verus!
