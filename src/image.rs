//! The atlas image as packed colours, and edge comparison.

use vstd::prelude::*;

verus! {

/// A rectangular region of an image, in pixels.
#[derive(Clone, Copy, Debug, PartialEq, Eq, Structural)]
pub struct Rect {
    pub x: u32,
    pub y: u32,
    pub width: u32,
    pub height: u32,
}

/// A pixel-addressable image: `pixels` holds one packed RGBA colour per
/// pixel, row by row.
#[derive(Clone, Debug)]
pub struct PixelImage {
    pub width: u32,
    pub height: u32,
    pub pixels: Vec<u32>,
}

impl PixelImage {
    pub open spec fn wf(&self) -> bool {
        self.pixels@.len() == self.width * self.height
    }

    pub open spec fn in_bounds(&self, x: int, y: int) -> bool {
        0 <= x < self.width && 0 <= y < self.height
    }

    /// The colour at `(x, y)`.
    pub open spec fn pixel(&self, x: int, y: int) -> u32 {
        self.pixels@[y * self.width + x]
    }

    /// Whether `rect` lies entirely inside the image.
    pub open spec fn contains_rect(&self, rect: Rect) -> bool {
        rect.x + rect.width <= self.width && rect.y + rect.height <= self.height
    }

    /// The colour at `(x, y)`, or `None` outside the image.
    pub fn get_color_at(&self, x: u32, y: u32) -> (r: Option<u32>)
        requires
            self.wf(),
        ensures
            r == (if self.in_bounds(x as int, y as int) {
                Some(self.pixel(x as int, y as int))
            } else {
                None
            }),
    {
        if x < self.width && y < self.height {
            let w = self.width as usize;
            proof {
                assert((y as int) * w + x < (self.width as int) * (self.height as int))
                    by (nonlinear_arith)
                    requires
                        x < self.width,
                        y < self.height,
                        w == self.width,
                ;
                assert((y as int) * w <= (y as int) * w + x);
                assert(self.pixels@.len() == self.pixels.len());
            }
            let row = y as usize * w;
            Some(self.pixels[row + x as usize])
        } else {
            None
        }
    }
}

/// Whether the `n` samples that start at `(sx, sy)` and at `(tx, ty)` and
/// advance by `(dx, dy)` carry equal colours, pairwise.
pub open spec fn edge_matches(
    image: PixelImage,
    sx: int,
    sy: int,
    tx: int,
    ty: int,
    dx: int,
    dy: int,
    n: int,
) -> bool {
    forall|i: int|
        0 <= i < n ==> #[trigger] image.pixel(sx + dx * i, sy + dy * i) == image.pixel(
            tx + dx * i,
            ty + dy * i,
        )
}

/// Whether every sample of such an edge lies inside the image.
pub open spec fn edge_in_bounds(image: PixelImage, sx: int, sy: int, dx: int, dy: int, n: int) -> bool {
    forall|i: int| 0 <= i < n ==> #[trigger] image.in_bounds(sx + dx * i, sy + dy * i)
}

/// Compares two edges of `tile_size` pixels that start at the source and the
/// destination point and advance by `(dx, dy)` from one sample to the next.
pub fn compare_edge(
    image: &PixelImage,
    source_x: u32,
    source_y: u32,
    dest_x: u32,
    dest_y: u32,
    dx: u32,
    dy: u32,
    tile_size: u32,
) -> (r: bool)
    requires
        image.wf(),
        edge_in_bounds(*image, source_x as int, source_y as int, dx as int, dy as int, tile_size as int),
        edge_in_bounds(*image, dest_x as int, dest_y as int, dx as int, dy as int, tile_size as int),
    ensures
        r == edge_matches(
            *image,
            source_x as int,
            source_y as int,
            dest_x as int,
            dest_y as int,
            dx as int,
            dy as int,
            tile_size as int,
        ),
{
    let mut i: u32 = 0;
    while i < tile_size
        invariant
            i <= tile_size,
            image.wf(),
            edge_in_bounds(*image, source_x as int, source_y as int, dx as int, dy as int, tile_size as int),
            edge_in_bounds(*image, dest_x as int, dest_y as int, dx as int, dy as int, tile_size as int),
            edge_matches(
                *image,
                source_x as int,
                source_y as int,
                dest_x as int,
                dest_y as int,
                dx as int,
                dy as int,
                i as int,
            ),
        decreases tile_size - i,
    {
        assert(image.in_bounds(source_x + dx * i, source_y + dy * i));
        assert(0 <= dx * i && 0 <= dy * i) by (nonlinear_arith)
            requires
                dx >= 0,
                dy >= 0,
                i >= 0,
        ;
        let dxi = dx * i;
        let dyi = dy * i;
        assert(image.in_bounds(source_x + dx * i, source_y + dy * i));
        assert(image.in_bounds(dest_x + dx * i, dest_y + dy * i));
        let source_color = image.get_color_at(source_x + dxi, source_y + dyi);
        let dest_color = image.get_color_at(dest_x + dxi, dest_y + dyi);
        if source_color != dest_color {
            return false;
        }
        i = i + 1;
    }
    true
}

} // verus!
