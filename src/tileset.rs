//! Tiles and tilesets, and the adjacency rules derived from edge pixels.

use crate::geometry::Direction;
use crate::region::{
    first_by_name, first_in_name_order, lemma_first_in_name_order_unique, sort_by_name, sorted_by_name, Region,
};
use crate::image::{compare_edge, edge_in_bounds, edge_matches, PixelImage, Rect};
use vstd::prelude::*;

verus! {

broadcast use {
    vstd::seq_lib::group_seq_lib_default,
    vstd::seq::Seq::lemma_filter_push,
    vstd::seq_lib::group_to_multiset_ensures,
    vstd::seq::Seq::lemma_filter_contains_rev,
};

/// A fixed-size sub-image of the atlas with, for each side, the indices of
/// the tiles that may stand next to it on that side.
#[derive(Clone, Debug)]
pub struct Tile {
    pub slice_name: String,
    pub rect: Rect,
    pub up: Vec<usize>,
    pub right: Vec<usize>,
    pub down: Vec<usize>,
    pub left: Vec<usize>,
}

/// The tiles of one atlas, in the order of their names, and their common
/// side length in pixels.
#[derive(Clone, Debug)]
pub struct Tileset {
    pub tiles: Vec<Tile>,
    pub tile_size: u32,
}

/// The tile indices `0, 1, ..., n - 1`, in order.
pub open spec fn indices(n: nat) -> Seq<usize> {
    Seq::new(n, |i: int| i as usize)
}

impl Tile {
    /// The adjacency list of side `d`.
    pub open spec fn adjacent(self, d: Direction) -> Seq<usize> {
        match d {
            Direction::Up => self.up@,
            Direction::Right => self.right@,
            Direction::Down => self.down@,
            Direction::Left => self.left@,
        }
    }

    /// A tile with no adjacency yet.
    pub fn new(slice_name: String, rect: Rect) -> (t: Tile)
        ensures
            t.slice_name == slice_name,
            t.rect == rect,
            t.up@.len() == 0,
            t.right@.len() == 0,
            t.down@.len() == 0,
            t.left@.len() == 0,
    {
        Tile { slice_name, rect, up: Vec::new(), right: Vec::new(), down: Vec::new(), left: Vec::new() }
    }
}

/// A copy of `v`.
pub(crate) fn copy_indices(v: &Vec<usize>) -> (r: Vec<usize>)
    ensures
        r@ == v@,
{
    let mut r: Vec<usize> = Vec::new();
    let mut i: usize = 0;
    while i < v.len()
        invariant
            i <= v@.len(),
            r@ == v@.subrange(0, i as int),
        decreases v@.len() - i,
    {
        r.push(v[i]);
        i = i + 1;
        assert(r@ =~= v@.subrange(0, i as int));
    }
    assert(v@.subrange(0, v@.len() as int) =~= v@);
    r
}

/// A copy of `t`.
pub(crate) fn copy_tile(t: &Tile) -> (r: Tile)
    ensures
        r.slice_name == t.slice_name,
        r.rect == t.rect,
        r.up@ == t.up@,
        r.right@ == t.right@,
        r.down@ == t.down@,
        r.left@ == t.left@,
{
    Tile {
        slice_name: t.slice_name.clone(),
        rect: t.rect,
        up: copy_indices(&t.up),
        right: copy_indices(&t.right),
        down: copy_indices(&t.down),
        left: copy_indices(&t.left),
    }
}

/// The first pixel of the edge on side `d` of a square tile of side `ts` at
/// `r`.
pub open spec fn edge_start(r: Rect, ts: int, d: Direction) -> (int, int) {
    match d {
        Direction::Up => (r.x as int, r.y as int),
        Direction::Down => (r.x as int, r.y + ts - 1),
        Direction::Left => (r.x as int, r.y as int),
        Direction::Right => (r.x + ts - 1, r.y as int),
    }
}

/// The step from one pixel of an edge on side `d` to the next.
pub open spec fn edge_step(d: Direction) -> (int, int) {
    match d {
        Direction::Up | Direction::Down => (1, 0),
        Direction::Left | Direction::Right => (0, 1),
    }
}

/// Whether tile `b`, at rectangle `rb`, may stand on side `d` of tile `a`, at
/// rectangle `ra`: the edge on side `d` of `a` and the edge on the opposite
/// side of `b` carry the same `ts` pixels.
pub open spec fn fits(image: PixelImage, ra: Rect, rb: Rect, ts: int, d: Direction) -> bool {
    let (sx, sy) = edge_start(ra, ts, d);
    let (tx, ty) = edge_start(rb, ts, d.opposite());
    let (dx, dy) = edge_step(d);
    edge_matches(image, sx, sy, tx, ty, dx, dy, ts)
}

/// The rectangles of `tiles`, in order.
pub open spec fn rects(tiles: Seq<Tile>) -> Seq<Rect> {
    tiles.map_values(|t: Tile| t.rect)
}

/// The test that a candidate tile fits on side `d` of tile `a`.
pub open spec fn fits_beside(image: PixelImage, rs: Seq<Rect>, a: int, ts: int, d: Direction) -> spec_fn(usize) -> bool {
    |b: usize| fits(image, rs[a], rs[b as int], ts, d)
}

/// The indices of the tiles that fit on side `d` of tile `a`, in order.
pub open spec fn matching(image: PixelImage, rs: Seq<Rect>, a: int, ts: int, d: Direction) -> Seq<usize> {
    indices(rs.len()).filter(fits_beside(image, rs, a, ts, d))
}

/// A tile fits beside another exactly when the other fits on the opposite
/// side of it.
pub proof fn lemma_fits_symmetric(image: PixelImage, ra: Rect, rb: Rect, ts: int, d: Direction)
    ensures
        fits(image, ra, rb, ts, d) == fits(image, rb, ra, ts, d.opposite()),
{
    match d {
        Direction::Up => {},
        Direction::Right => {},
        Direction::Down => {},
        Direction::Left => {},
    }
}

/// A tile of side `ts` at `r` lies inside the image.
pub open spec fn square_inside(image: PixelImage, r: Rect, ts: int) -> bool {
    r.x + ts <= image.width && r.y + ts <= image.height
}

/// `b` may stand on side `d` of `a` exactly when `a` may stand on the
/// opposite side of `b`.
pub open spec fn adjacency_symmetric(tiles: Seq<Tile>) -> bool {
    forall|a: int, b: int, d: Direction|
        0 <= a < tiles.len() && 0 <= b < tiles.len() ==> (#[trigger] tiles[a].adjacent(d).contains(b as usize)
            <==> #[trigger] tiles[b].adjacent(d.opposite()).contains(a as usize))
}

impl Tileset {
    /// Every adjacency entry names a tile of the set.
    pub open spec fn wf(&self) -> bool {
        forall|a: int, d: Direction, j: int|
            0 <= a < self.tiles@.len() && 0 <= j < self.tiles@[a].adjacent(d).len()
                ==> #[trigger] self.tiles@[a].adjacent(d)[j] < self.tiles@.len()
    }

    /// `b` may stand on side `d` of `a` exactly when `a` may stand on the
    /// opposite side of `b`.
    pub open spec fn symmetric(&self) -> bool {
        adjacency_symmetric(self.tiles@)
    }

    /// Every tile is a square of side `ts` inside the image.
    pub open spec fn inside(&self, image: PixelImage, ts: int) -> bool {
        forall|k: int| 0 <= k < self.tiles@.len() ==> square_inside(image, #[trigger] self.tiles@[k].rect, ts)
    }
}

/// Each of the four edges of a square tile inside the image is inside it.
proof fn lemma_edges_inside(image: PixelImage, r: Rect, ts: int)
    requires
        ts > 0,
        square_inside(image, r, ts),
    ensures
        edge_in_bounds(image, r.x as int, r.y as int, 1, 0, ts),
        edge_in_bounds(image, r.x as int, r.y + ts - 1, 1, 0, ts),
        edge_in_bounds(image, r.x as int, r.y as int, 0, 1, ts),
        edge_in_bounds(image, r.x + ts - 1, r.y as int, 0, 1, ts),
{
    assert forall|i: int| 0 <= i < ts implies #[trigger] image.in_bounds(r.x + 1 * i, r.y + 0 * i)
        && image.in_bounds(r.x + 1 * i, (r.y + ts - 1) + 0 * i) && image.in_bounds(r.x + 0 * i, r.y + 1 * i)
        && image.in_bounds((r.x + ts - 1) + 0 * i, r.y + 1 * i) by {}
}

/// Whether a tile at `rb` fits on side `d` of a tile at `ra`.
fn edge_fits(image: &PixelImage, ra: Rect, rb: Rect, ts: u32, d: Direction) -> (r: bool)
    requires
        image.wf(),
        ts > 0,
        square_inside(*image, ra, ts as int),
        square_inside(*image, rb, ts as int),
    ensures
        r == fits(*image, ra, rb, ts as int, d),
{
    proof {
        lemma_edges_inside(*image, ra, ts as int);
        lemma_edges_inside(*image, rb, ts as int);
    }
    match d {
        Direction::Up => compare_edge(image, ra.x, ra.y, rb.x, rb.y + ts - 1, 1, 0, ts),
        Direction::Down => compare_edge(image, ra.x, ra.y + ts - 1, rb.x, rb.y, 1, 0, ts),
        Direction::Left => compare_edge(image, ra.x, ra.y, rb.x + ts - 1, rb.y, 0, 1, ts),
        Direction::Right => compare_edge(image, ra.x + ts - 1, ra.y, rb.x, rb.y, 0, 1, ts),
    }
}

/// The tile `t` with each adjacency list extended by the tiles that fit on
/// that side of tile `a` of `tiles`.
pub open spec fn extended_by_matches(new: Tile, t: Tile, image: PixelImage, rs: Seq<Rect>, a: int, ts: int) -> bool {
    &&& new.slice_name == t.slice_name
    &&& new.rect == t.rect
    &&& forall|d: Direction| #[trigger] new.adjacent(d) == t.adjacent(d) + matching(image, rs, a, ts, d)
}

/// Compares the touching edges of every ordered pair of tiles, a tile with
/// itself included, and appends to the current tile's list of a side the
/// index of each candidate whose edge matches pixel for pixel.
pub fn generating_adjacency_rules(tiles: &mut Tileset, image: &PixelImage, tile_size: u32)
    requires
        image.wf(),
        tile_size > 0,
        old(tiles).inside(*image, tile_size as int),
    ensures
        final(tiles).tile_size == old(tiles).tile_size,
        final(tiles).tiles@.len() == old(tiles).tiles@.len(),
        forall|k: int|
            0 <= k < old(tiles).tiles@.len() ==> extended_by_matches(
                #[trigger] final(tiles).tiles@[k],
                old(tiles).tiles@[k],
                *image,
                rects(old(tiles).tiles@),
                k,
                tile_size as int,
            ),
{
    let ghost ts = tile_size as int;
    let ghost before = tiles.tiles@;
    let n = tiles.tiles.len();
    let mut result: Vec<Tile> = Vec::new();
    let mut a: usize = 0;
    while a < n
        invariant
            n == before.len(),
            tiles.tiles@ == before,
            image.wf(),
            tile_size > 0,
            tiles.inside(*image, ts),
            ts == tile_size,
            a <= n,
            result@.len() == a,
            forall|k: int|
                0 <= k < a ==> extended_by_matches(#[trigger] result@[k], before[k], *image, rects(before), k, ts),
        decreases n - a,
    {
        let current = &tiles.tiles[a];
        let mut up = copy_indices(&current.up);
        let mut right = copy_indices(&current.right);
        let mut down = copy_indices(&current.down);
        let mut left = copy_indices(&current.left);
        let mut b: usize = 0;
        while b < n
            invariant
                n == before.len(),
                tiles.tiles@ == before,
                image.wf(),
                tile_size > 0,
                tiles.inside(*image, ts),
                ts == tile_size,
                a < n,
                b <= n,
                *current == before[a as int],
                up@ == current.up@ + indices(b as nat).filter(fits_beside(*image, rects(before), a as int, ts, Direction::Up)),
                right@ == current.right@ + indices(b as nat).filter(fits_beside(*image, rects(before), a as int, ts, Direction::Right)),
                down@ == current.down@ + indices(b as nat).filter(fits_beside(*image, rects(before), a as int, ts, Direction::Down)),
                left@ == current.left@ + indices(b as nat).filter(fits_beside(*image, rects(before), a as int, ts, Direction::Left)),
            decreases n - b,
        {
            let dest = &tiles.tiles[b];
            proof {
                assert(square_inside(*image, before[a as int].rect, ts));
                assert(square_inside(*image, before[b as int].rect, ts));
                assert(indices((b + 1) as nat) =~= indices(b as nat).push(b));
                assert(rects(before)[a as int] == current.rect);
                assert(rects(before)[b as int] == dest.rect);
            }
            if edge_fits(image, current.rect, dest.rect, tile_size, Direction::Up) {
                up.push(b);
            }
            if edge_fits(image, current.rect, dest.rect, tile_size, Direction::Down) {
                down.push(b);
            }
            if edge_fits(image, current.rect, dest.rect, tile_size, Direction::Left) {
                left.push(b);
            }
            if edge_fits(image, current.rect, dest.rect, tile_size, Direction::Right) {
                right.push(b);
            }
            b = b + 1;
        }
        let tile = Tile { slice_name: current.slice_name.clone(), rect: current.rect, up, right, down, left };
        proof {
            assert forall|d: Direction| #[trigger] tile.adjacent(d) == before[a as int].adjacent(d) + matching(
                *image,
                rects(before),
                a as int,
                ts,
                d,
            ) by {
                match d {
                    Direction::Up => {},
                    Direction::Right => {},
                    Direction::Down => {},
                    Direction::Left => {},
                }
            }
        }
        result.push(tile);
        a = a + 1;
    }
    tiles.tiles = result;
}

/// Why no tileset could be built from an atlas.
#[derive(Clone, Copy, Debug, PartialEq, Eq, Structural)]
pub enum TilesetError {
    /// No region, or none of the tile size, or a tile size of zero (the
    /// first region in name order has no width).
    EmptyAtlas,
    /// A region of the tile size reaches outside the image.
    PixelOutOfBounds,
}

/// The region that tile `t` was cut from.
pub open spec fn region_of(t: Tile) -> Region {
    Region { name: t.slice_name, rect: t.rect }
}

/// The regions of `tiles`, in order.
pub open spec fn regions_of(tiles: Seq<Tile>) -> Seq<Region> {
    tiles.map_values(|t: Tile| region_of(t))
}

/// The test that a region is a square of side `ts`.
pub open spec fn of_size(ts: u32) -> spec_fn(Region) -> bool {
    |r: Region| r.rect.width == ts && r.rect.height == ts
}

/// The regions that are squares of side `ts`; the others are rejected.
pub open spec fn accepted(regions: Seq<Region>, ts: u32) -> Seq<Region> {
    regions.filter(of_size(ts))
}

/// The tile size that an atlas establishes: the width of its first region
/// in name order, so that it does not depend on the order of the regions
/// but for equal names.
pub open spec fn established_size(regions: Seq<Region>) -> u32 {
    regions[choose|k: int| first_in_name_order(regions, k)].rect.width
}

/// The established size is the width of the region first in name order.
pub proof fn lemma_established_size(regions: Seq<Region>, k: int)
    requires
        first_in_name_order(regions, k),
    ensures
        established_size(regions) == regions[k].rect.width,
{
    let c = choose|c: int| first_in_name_order(regions, c);
    lemma_first_in_name_order_unique(regions, c, k);
}

/// The outcome of building a tileset from `regions` of `image`, but for
/// the tiles themselves when it succeeds.
pub open spec fn catalog_error(image: PixelImage, regions: Seq<Region>) -> Option<TilesetError> {
    if regions.len() == 0 || established_size(regions) == 0 || accepted(regions, established_size(regions)).len() == 0 {
        Some(TilesetError::EmptyAtlas)
    } else if exists|k: int|
        0 <= k < accepted(regions, established_size(regions)).len() && !square_inside(
            image,
            #[trigger] accepted(regions, established_size(regions))[k].rect,
            established_size(regions) as int,
        ) {
        Some(TilesetError::PixelOutOfBounds)
    } else {
        None
    }
}

/// The positions of the regions that a tileset built from `regions` leaves
/// out because they are not squares of the established tile size, in
/// increasing order.
pub fn mismatched_regions(regions: &Vec<Region>) -> (r: Vec<usize>)
    ensures
        regions@.len() == 0 ==> r@.len() == 0,
        forall|q: int| 0 <= q < r@.len() ==> #[trigger] r@[q] < regions@.len(),
        forall|p: int, q: int| 0 <= p < q < r@.len() ==> #[trigger] r@[p] < #[trigger] r@[q],
        regions@.len() > 0 ==> forall|k: int|
            0 <= k < regions@.len() ==> (r@.contains(k as usize) <==> !of_size(established_size(regions@))(
                #[trigger] regions@[k],
            )),
{
    let mut r: Vec<usize> = Vec::new();
    if regions.len() == 0 {
        return r;
    }
    let first = first_by_name(regions);
    let tile_size = regions[first].rect.width;
    proof {
        lemma_established_size(regions@, first as int);
    }
    let mut k: usize = 0;
    while k < regions.len()
        invariant
            k <= regions@.len(),
            regions@.len() > 0,
            tile_size == established_size(regions@),
            forall|q: int| 0 <= q < r@.len() ==> #[trigger] r@[q] < k,
            forall|p: int, q: int| 0 <= p < q < r@.len() ==> #[trigger] r@[p] < #[trigger] r@[q],
            forall|m: int|
                0 <= m < k ==> (r@.contains(m as usize) <==> !of_size(tile_size)(#[trigger] regions@[m])),
        decreases regions@.len() - k,
    {
        let ghost before = r@;
        let rect = regions[k].rect;
        if rect.width != tile_size || rect.height != tile_size {
            r.push(k);
        }
        proof {
            assert forall|m: int| 0 <= m < k + 1 implies (r@.contains(m as usize) <==> !of_size(tile_size)(
                #[trigger] regions@[m],
            )) by {
                if r@.contains(m as usize) {
                    let q = choose|q: int| 0 <= q < r@.len() && r@[q] == m as usize;
                    if q < before.len() {
                        assert(before[q] == m as usize);
                        assert(before.contains(m as usize));
                    }
                }
                if m < k && before.contains(m as usize) {
                    let q = choose|q: int| 0 <= q < before.len() && before[q] == m as usize;
                    assert(r@[q] == m as usize);
                }
                if m == k && !of_size(tile_size)(regions@[m]) {
                    assert(r@[r@.len() - 1] == m as usize);
                }
            }
        }
        k = k + 1;
    }
    r
}

impl Tileset {
    /// Each adjacency list holds exactly the tiles that fit on that side, in
    /// index order.
    pub open spec fn derived_from(&self, image: PixelImage) -> bool {
        forall|k: int, d: Direction|
            0 <= k < self.tiles@.len() ==> #[trigger] self.tiles@[k].adjacent(d) == matching(
                image,
                rects(self.tiles@),
                k,
                self.tile_size as int,
                d,
            )
    }

    /// Adjacency derived from pixels names only tiles of the set and is
    /// symmetric.
    pub proof fn lemma_derived_wf_symmetric(&self, image: PixelImage)
        requires
            self.derived_from(image),
        ensures
            self.wf(),
            self.symmetric(),
    {
        let rs = rects(self.tiles@);
        let ts = self.tile_size as int;
        assert(self.tiles.len() == self.tiles@.len());
        assert forall|a: int, d: Direction, j: int|
            0 <= a < self.tiles@.len() && 0 <= j < self.tiles@[a].adjacent(d).len()
                implies #[trigger] self.tiles@[a].adjacent(d)[j] < self.tiles@.len() by {
            let m = matching(image, rs, a, ts, d);
            assert(m.contains(m[j]));
            assert(indices(rs.len()).contains(m[j]));
        }
        assert forall|a: int, b: int, d: Direction|
            0 <= a < self.tiles@.len() && 0 <= b < self.tiles@.len() implies (
            #[trigger] self.tiles@[a].adjacent(d).contains(b as usize) <==> #[trigger] self.tiles@[b].adjacent(
                d.opposite(),
            ).contains(a as usize)) by {
            lemma_fits_symmetric(image, rs[a], rs[b], ts, d);
            let s0 = indices(rs.len());
            let m1 = matching(image, rs, a, ts, d);
            let m2 = matching(image, rs, b, ts, d.opposite());
            assert(self.tiles@[a].adjacent(d) == m1);
            assert(self.tiles@[b].adjacent(d.opposite()) == m2);
            assert(s0[b] == b as usize);
            assert(s0[a] == a as usize);
            if m1.contains(b as usize) {
                let q = choose|q: int| 0 <= q < m1.len() && m1[q] == b as usize;
                assert(fits_beside(image, rs, a, ts, d)(m1[q]));
                assert(fits(image, rs[a], rs[b], ts, d));
                assert(fits_beside(image, rs, b, ts, d.opposite())(s0[a]));
                assert(m2.contains(s0[a]));
            }
            if m2.contains(a as usize) {
                let q = choose|q: int| 0 <= q < m2.len() && m2[q] == a as usize;
                assert(fits_beside(image, rs, b, ts, d.opposite())(m2[q]));
                assert(fits(image, rs[b], rs[a], ts, d.opposite()));
                assert(fits_beside(image, rs, a, ts, d)(s0[b]));
                assert(m1.contains(s0[b]));
            }
        }
    }

    /// In a tileset derived from pixels, `b` is listed on side `d` of `a`
    /// exactly when it fits there.
    pub proof fn lemma_adjacent_iff_fits(&self, image: PixelImage, a: int, b: int, d: Direction)
        requires
            self.derived_from(image),
            0 <= a < self.tiles@.len(),
            0 <= b < self.tiles@.len(),
        ensures
            self.tiles@[a].adjacent(d).contains(b as usize) <==> fits(
                image,
                self.tiles@[a].rect,
                self.tiles@[b].rect,
                self.tile_size as int,
                d,
            ),
    {
        let rs = rects(self.tiles@);
        let ts = self.tile_size as int;
        assert(self.tiles.len() == self.tiles@.len());
        let s0 = indices(rs.len());
        let m = matching(image, rs, a, ts, d);
        assert(self.tiles@[a].adjacent(d) == m);
        assert(s0[b] == b as usize);
        if m.contains(b as usize) {
            let q = choose|q: int| 0 <= q < m.len() && m[q] == b as usize;
            assert(fits_beside(image, rs, a, ts, d)(m[q]));
        }
        if fits(image, rs[a], rs[b], ts, d) {
            assert(fits_beside(image, rs, a, ts, d)(s0[b]));
            assert(m.contains(s0[b]));
        }
    }

    /// Builds the tileset of an atlas: the regions that are squares of the
    /// size of the first one in name order become tiles, in name order, and
    /// the adjacency of every side is derived from the pixels of the touching
    /// edges.
    pub fn new(image: &PixelImage, regions: &Vec<Region>) -> (r: Result<Tileset, TilesetError>)
        requires
            image.wf(),
        ensures
            match r {
                Err(e) => catalog_error(*image, regions@) == Some(e),
                Ok(t) => {
                    &&& catalog_error(*image, regions@).is_none()
                    &&& t.tile_size == established_size(regions@)
                    &&& regions_of(t.tiles@).to_multiset() == accepted(regions@, t.tile_size).to_multiset()
                    &&& sorted_by_name(regions_of(t.tiles@))
                    &&& t.inside(*image, t.tile_size as int)
                    &&& t.derived_from(*image)
                },
            },
    {
        if regions.len() == 0 {
            return Err(TilesetError::EmptyAtlas);
        }
        let first = first_by_name(regions);
        let tile_size = regions[first].rect.width;
        proof {
            lemma_established_size(regions@, first as int);
        }
        if tile_size == 0 {
            return Err(TilesetError::EmptyAtlas);
        }
        let ghost acc = accepted(regions@, tile_size);
        let mut kept: Vec<Region> = Vec::new();
        let mut i: usize = 0;
        while i < regions.len()
            invariant
                i <= regions@.len(),
                kept@ == regions@.subrange(0, i as int).filter(of_size(tile_size)),
            decreases regions@.len() - i,
        {
            let region = &regions[i];
            proof {
                assert(regions@.subrange(0, i + 1) =~= regions@.subrange(0, i as int).push(regions@[i as int]));
            }
            if region.rect.width == tile_size && region.rect.height == tile_size {
                kept.push(Region { name: region.name.clone(), rect: region.rect });
            }
            i = i + 1;
        }
        assert(regions@.subrange(0, regions@.len() as int) =~= regions@);
        if kept.len() == 0 {
            return Err(TilesetError::EmptyAtlas);
        }
        let mut j: usize = 0;
        while j < kept.len()
            invariant
                j <= kept@.len(),
                kept@ == acc,
                regions@.len() > 0,
                tile_size > 0,
                tile_size == established_size(regions@),
                acc == accepted(regions@, tile_size),
                forall|k: int| 0 <= k < j ==> square_inside(*image, #[trigger] acc[k].rect, tile_size as int),
            decreases kept@.len() - j,
        {
            let rect = kept[j].rect;
            if rect.x as u64 + tile_size as u64 > image.width as u64 || rect.y as u64 + tile_size as u64
                > image.height as u64 {
                assert(!square_inside(*image, acc[j as int].rect, tile_size as int));
                return Err(TilesetError::PixelOutOfBounds);
            }
            j = j + 1;
        }
        let sorted = sort_by_name(&kept);
        let mut tiles: Vec<Tile> = Vec::new();
        let mut k: usize = 0;
        while k < sorted.len()
            invariant
                k <= sorted@.len(),
                tiles@.len() == k,
                forall|m: int| 0 <= m < k ==> region_of(#[trigger] tiles@[m]) == sorted@[m],
                forall|m: int| 0 <= m < k ==> (#[trigger] tiles@[m]).up@.len() == 0 && tiles@[m].right@.len() == 0
                    && tiles@[m].down@.len() == 0 && tiles@[m].left@.len() == 0,
            decreases sorted@.len() - k,
        {
            let region = &sorted[k];
            tiles.push(Tile::new(region.name.clone(), region.rect));
            k = k + 1;
        }
        assert(regions_of(tiles@) =~= sorted@);
        proof {
            assert(sorted@.to_multiset().len() == acc.to_multiset().len());
            assert forall|m: int| 0 <= m < tiles@.len() implies square_inside(
                *image,
                #[trigger] tiles@[m].rect,
                tile_size as int,
            ) by {
                assert(sorted@.contains(sorted@[m]));
                assert(sorted@.to_multiset().count(sorted@[m]) > 0);
                assert(acc.contains(sorted@[m]));
            }
        }
        let mut tileset = Tileset { tiles, tile_size };
        let ghost fresh = tileset;
        generating_adjacency_rules(&mut tileset, image, tile_size);
        proof {
            assert(rects(tileset.tiles@) =~= rects(fresh.tiles@));
            assert(regions_of(tileset.tiles@) =~= regions_of(fresh.tiles@));
            assert forall|m: int, d: Direction| 0 <= m < tileset.tiles@.len() implies #[trigger] tileset.tiles@[m].adjacent(d)
                == matching(*image, rects(tileset.tiles@), m, tile_size as int, d) by {
                assert(extended_by_matches(tileset.tiles@[m], fresh.tiles@[m], *image, rects(fresh.tiles@), m, tile_size as int));
                assert(fresh.tiles@[m].adjacent(d).len() == 0);
            }
        }
        Ok(tileset)
    }
}

} // verus!
