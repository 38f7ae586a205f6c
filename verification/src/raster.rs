//! Images as plain pixel grids, the grid geometry of the mosaic, and the
//! assembly of the mosaic from the tiles placed in its blocks.

use vstd::prelude::*;

verus! {

/// An RGBA image: `width * height` pixels, row by row from the top, each row
/// from the left.
pub struct Raster {
    pub width: u32,
    pub height: u32,
    pub pixels: Vec<[u8; 4]>,
}

/// Opaque white, the background of the mosaic.
pub open spec fn white() -> [u8; 4] {
    [255u8, 255u8, 255u8, 255u8]
}

impl Raster {
    /// The pixel buffer matches the dimensions.
    pub open spec fn wf(&self) -> bool {
        self.pixels@.len() == self.width * self.height
    }

    /// The pixel in column `x` of row `y`.
    pub open spec fn pixel(&self, x: int, y: int) -> [u8; 4] {
        self.pixels@[y * self.width + x]
    }

    /// An image of `width` by `height` pixels, all `px`.
    pub fn filled(width: u32, height: u32, px: [u8; 4]) -> (r: Raster)
        requires
            width * height <= usize::MAX,
        ensures
            r.wf(),
            r.width == width,
            r.height == height,
            forall|i: int| 0 <= i < r.pixels@.len() ==> #[trigger] r.pixels@[i] == px,
    {
        let n = width as usize * height as usize;
        let mut pixels: Vec<[u8; 4]> = Vec::new();
        let mut i: usize = 0;
        while i < n
            invariant
                i <= n,
                pixels.len() == i,
                forall|k: int| 0 <= k < i ==> #[trigger] pixels@[k] == px,
            decreases n - i,
        {
            pixels.push(px);
            i = i + 1;
        }
        Raster { width, height, pixels }
    }
}

/// The side of a block: the image side over the grid side, rounded up.
pub fn block_size(dest_side: u32, grid_side: u32) -> (s: u32)
    requires
        grid_side > 0,
        dest_side + grid_side <= u32::MAX,
    ensures
        s == (dest_side + grid_side - 1) / (grid_side as int),
{
    (dest_side + grid_side - 1) / grid_side
}

/// The block in whose cell pixel `(x, y)` of the mosaic lies.
pub open spec fn block_of(gw: int, tw: int, th: int, x: int, y: int) -> int {
    (y / th) * gw + x / tw
}

/// The pixel of the mosaic at `(x, y)`: that of the tile placed in its block,
/// at the same place within the cell, or white when no tile is placed there.
pub open spec fn mosaic_pixel(
    tiles: Seq<Raster>,
    placement: Seq<usize>,
    gw: int,
    tw: int,
    th: int,
    x: int,
    y: int,
) -> [u8; 4] {
    let b = block_of(gw, tw, th, x, y);
    if b < placement.len() {
        tiles[placement[b] as int].pixel(x % tw, y % th)
    } else {
        white()
    }
}

proof fn lemma_cell_bounds(gw: int, gh: int, tw: int, th: int, x: int, y: int)
    requires
        0 < gw,
        0 < tw,
        0 < th,
        0 <= x < gw * tw,
        0 <= y < gh * th,
    ensures
        0 <= x / tw < gw,
        0 <= y / th < gh,
        0 <= block_of(gw, tw, th, x, y) < gw * gh,
        0 <= x % tw < tw,
        0 <= y % th < th,
        0 <= (y % th) * tw + x % tw < tw * th,
{
    vstd::arithmetic::div_mod::lemma_fundamental_div_mod(x, tw);
    vstd::arithmetic::div_mod::lemma_fundamental_div_mod(y, th);
    vstd::arithmetic::div_mod::lemma_div_pos_is_pos(x, tw);
    vstd::arithmetic::div_mod::lemma_div_pos_is_pos(y, th);
    vstd::arithmetic::div_mod::lemma_mod_pos_bound(x, tw);
    vstd::arithmetic::div_mod::lemma_mod_pos_bound(y, th);
    let c = x / tw;
    let r = y / th;
    assert(c < gw) by (nonlinear_arith)
        requires
            x == tw * c + x % tw,
            0 <= x % tw,
            x < gw * tw,
            0 < tw,
    ;
    assert(r < gh) by (nonlinear_arith)
        requires
            y == th * r + y % th,
            0 <= y % th,
            y < gh * th,
            0 < th,
    ;
    assert(r * gw + c < gw * gh) by (nonlinear_arith)
        requires
            0 <= r < gh,
            0 <= c < gw,
    ;
    assert(0 <= r * gw + c) by (nonlinear_arith)
        requires
            0 <= r,
            0 <= c,
            0 < gw,
    ;
    let yy = y % th;
    let xx = x % tw;
    assert(yy * tw + xx < tw * th) by (nonlinear_arith)
        requires
            0 <= yy < th,
            0 <= xx < tw,
    ;
    assert(0 <= yy * tw + xx) by (nonlinear_arith)
        requires
            0 <= yy,
            0 <= xx,
            0 < tw,
    ;
}

proof fn lemma_row_major(w: int, h: int, x: int, y: int)
    requires
        0 <= x < w,
        0 <= y < h,
    ensures
        0 <= y * w + x < w * h,
        (y * w + x) % w == x,
        (y * w + x) / w == y,
{
    assert(y * w + x < w * h) by (nonlinear_arith)
        requires
            0 <= x < w,
            0 <= y < h,
    ;
    assert(0 <= y * w) by (nonlinear_arith)
        requires
            0 <= y,
            0 <= w,
    ;
    vstd::arithmetic::div_mod::lemma_fundamental_div_mod_converse(y * w + x, w, y, x);
}

/// The corner of the cell of block `b`: column `b % gw`, row `b / gw`.
pub open spec fn cell_x(gw: int, tw: int, b: int) -> int {
    (b % gw) * tw
}

pub open spec fn cell_y(gw: int, th: int, b: int) -> int {
    (b / gw) * th
}

/// The tile of block `b` covers pixel `(x, y)` of the mosaic: it is drawn
/// with its top left corner at the corner of the block's cell.
pub open spec fn covers(
    tiles: Seq<Raster>,
    placement: Seq<usize>,
    gw: int,
    tw: int,
    th: int,
    b: int,
    x: int,
    y: int,
) -> bool {
    let t = tiles[placement[b] as int];
    let x0 = cell_x(gw, tw, b);
    let y0 = cell_y(gw, th, b);
    x0 <= x < x0 + t.width && y0 <= y < y0 + t.height
}

/// The pixel at `(x, y)` once the tiles of the first `k` blocks are drawn in
/// order on a white background, each over what was drawn before it.
pub open spec fn painted(
    tiles: Seq<Raster>,
    placement: Seq<usize>,
    gw: int,
    tw: int,
    th: int,
    k: int,
    x: int,
    y: int,
) -> [u8; 4]
    decreases k,
{
    if k <= 0 {
        white()
    } else if covers(tiles, placement, gw, tw, th, k - 1, x, y) {
        tiles[placement[k - 1] as int].pixel(
            x - cell_x(gw, tw, k - 1),
            y - cell_y(gw, th, k - 1),
        )
    } else {
        painted(tiles, placement, gw, tw, th, k - 1, x, y)
    }
}

/// Every tile drawn stays within `u32` coordinates.
pub open spec fn tiles_drawable(tiles: Seq<Raster>, placement: Seq<usize>, gw: int, tw: int, th: int) -> bool {
    forall|b: int|
        0 <= b < placement.len() ==> cell_x(gw, tw, b) + (#[trigger] tiles[placement[b] as int]).width
            <= u32::MAX && cell_y(gw, th, b) + tiles[placement[b] as int].height <= u32::MAX
}

proof fn lemma_cell_corner(gw: int, gh: int, tw: int, th: int, b: int)
    requires
        0 < gw,
        0 <= tw,
        0 <= th,
        0 <= b < gw * gh,
    ensures
        0 <= b % gw < gw,
        0 <= b / gw < gh,
        0 <= cell_x(gw, tw, b) <= (gw - 1) * tw,
        0 <= cell_y(gw, th, b) <= (gh - 1) * th,
        cell_x(gw, tw, b) <= gw * tw,
        cell_y(gw, th, b) <= gh * th,
{
    vstd::arithmetic::div_mod::lemma_fundamental_div_mod(b, gw);
    vstd::arithmetic::div_mod::lemma_mod_pos_bound(b, gw);
    vstd::arithmetic::div_mod::lemma_div_pos_is_pos(b, gw);
    let q = b / gw;
    let r = b % gw;
    assert(q < gh) by (nonlinear_arith)
        requires
            b == gw * q + r,
            0 <= r,
            b < gw * gh,
            0 < gw,
    ;
    assert(0 <= r * tw <= (gw - 1) * tw) by (nonlinear_arith)
        requires
            0 <= r < gw,
            0 <= tw,
    ;
    assert(0 <= q * th <= (gh - 1) * th) by (nonlinear_arith)
        requires
            0 <= q < gh,
            0 <= th,
    ;
    assert((gw - 1) * tw <= gw * tw) by (nonlinear_arith)
        requires
            0 <= tw,
    ;
    assert((gh - 1) * th <= gh * th) by (nonlinear_arith)
        requires
            0 <= th,
    ;
}

/// Every tile, drawn at the corner of any cell of a `gw` by `gh` grid, stays
/// within `u32` coordinates.
pub open spec fn drawable_anywhere(tiles: Seq<Raster>, gw: int, gh: int, tw: int, th: int) -> bool {
    forall|i: int|
        0 <= i < tiles.len() ==> (gw - 1) * tw + (#[trigger] tiles[i]).width <= u32::MAX && (gh - 1)
            * th + tiles[i].height <= u32::MAX
}

/// Tiles that fit at any cell fit at the cells of any placement of them.
pub proof fn lemma_drawable_placement(
    tiles: Seq<Raster>,
    placement: Seq<usize>,
    gw: int,
    gh: int,
    tw: int,
    th: int,
)
    requires
        0 < gw,
        0 <= tw,
        0 <= th,
        placement.len() <= gw * gh,
        forall|b: int| 0 <= b < placement.len() ==> #[trigger] placement[b] < tiles.len(),
        drawable_anywhere(tiles, gw, gh, tw, th),
    ensures
        tiles_drawable(tiles, placement, gw, tw, th),
{
    assert forall|b: int| 0 <= b < placement.len() implies cell_x(gw, tw, b) + (
    #[trigger] tiles[placement[b] as int]).width <= u32::MAX && cell_y(gw, th, b)
        + tiles[placement[b] as int].height <= u32::MAX by {
        lemma_cell_corner(gw, gh, tw, th, b);
        let i = placement[b] as int;
        assert(0 <= i < tiles.len());
    }
}

/// The mosaic of `grid_w` by `grid_h` cells of `tile_w` by `tile_h` pixels,
/// white where nothing is drawn, on which block `b` (row `b / grid_w`, column
/// `b % grid_w`) draws tile `placement[b]` at the corner of its cell, the
/// blocks in order, each tile cut at the edge of the mosaic.
pub fn assemble(
    tiles: &Vec<Raster>,
    placement: &Vec<usize>,
    grid_w: u32,
    grid_h: u32,
    tile_w: u32,
    tile_h: u32,
) -> (r: Raster)
    requires
        grid_w > 0,
        grid_w * tile_w <= u32::MAX,
        grid_h * tile_h <= u32::MAX,
        (grid_w * tile_w) * (grid_h * tile_h) <= usize::MAX,
        placement.len() <= grid_w * grid_h,
        forall|i: int| 0 <= i < tiles.len() ==> (#[trigger] tiles@[i]).wf(),
        forall|b: int| 0 <= b < placement.len() ==> #[trigger] placement@[b] < tiles.len(),
        tiles_drawable(tiles@, placement@, grid_w as int, tile_w as int, tile_h as int),
    ensures
        r.wf(),
        r.width == grid_w * tile_w,
        r.height == grid_h * tile_h,
        forall|x: int, y: int|
            0 <= x < r.width && 0 <= y < r.height ==> #[trigger] r.pixel(x, y) == painted(
                tiles@,
                placement@,
                grid_w as int,
                tile_w as int,
                tile_h as int,
                placement.len() as int,
                x,
                y,
            ),
{
    let width = grid_w * tile_w;
    let height = grid_h * tile_h;
    let ghost ts = tiles@;
    let ghost pl = placement@;
    let ghost gw = grid_w as int;
    let ghost tw = tile_w as int;
    let ghost th = tile_h as int;
    let ghost wi = width as int;
    let ghost hi = height as int;
    let mut result = Raster::filled(width, height, [255u8, 255u8, 255u8, 255u8]);
    let n = result.pixels.len();
    let mut b: usize = 0;
    while b < placement.len()
        invariant
            width == grid_w * tile_w,
            height == grid_h * tile_h,
            wi == width,
            hi == height,
            wi * hi <= usize::MAX,
            n == wi * hi,
            ts == tiles@,
            pl == placement@,
            gw == grid_w,
            tw == tile_w,
            th == tile_h,
            grid_w > 0,
            placement.len() <= grid_w * grid_h,
            forall|i: int| 0 <= i < tiles.len() ==> (#[trigger] tiles@[i]).wf(),
            forall|k: int| 0 <= k < placement.len() ==> #[trigger] placement@[k] < tiles.len(),
            tiles_drawable(ts, pl, gw, tw, th),
            result.width == width,
            result.height == height,
            result.pixels.len() == n,
            b <= placement.len(),
            forall|q: int|
                0 <= q < n ==> #[trigger] result.pixels@[q] == painted(ts, pl, gw, tw, th, b as int, q % wi, q / wi),
        decreases placement.len() - b,
    {
        proof {
            lemma_cell_corner(gw, grid_h as int, tw, th, b as int);
        }
        let row = (b / grid_w as usize) as u32;
        let col = (b % grid_w as usize) as u32;
        let x = col * tile_w;
        let y = row * tile_h;
        let tile = &tiles[placement[b]];
        assert(x as int == cell_x(gw, tw, b as int) && y as int == cell_y(gw, th, b as int));
        assert(x + tile.width <= u32::MAX && y + tile.height <= u32::MAX);
        let tn = tile.pixels.len();
        let mut py: u32 = 0;
        while py < tile.height
            invariant
                width == grid_w * tile_w,
                height == grid_h * tile_h,
                wi == width,
                hi == height,
                wi * hi <= usize::MAX,
                n == wi * hi,
                ts == tiles@,
                pl == placement@,
                gw == grid_w,
                tw == tile_w,
                th == tile_h,
                b < placement.len(),
                *tile == ts[pl[b as int] as int],
                tile.wf(),
                tn == tile.width * tile.height,
                x as int == cell_x(gw, tw, b as int),
                y as int == cell_y(gw, th, b as int),
                x + tile.width <= u32::MAX,
                y + tile.height <= u32::MAX,
                result.width == width,
                result.height == height,
                result.pixels.len() == n,
                py <= tile.height,
                forall|q: int|
                    0 <= q < n ==> #[trigger] result.pixels@[q] == {
                        let qx = q % wi;
                        let qy = q / wi;
                        if covers(ts, pl, gw, tw, th, b as int, qx, qy) && qy - y < py {
                            tile.pixel(qx - x, qy - y)
                        } else {
                            painted(ts, pl, gw, tw, th, b as int, qx, qy)
                        }
                    },
            decreases tile.height - py,
        {
            let mut px: u32 = 0;
            while px < tile.width
                invariant
                    width == grid_w * tile_w,
                    height == grid_h * tile_h,
                    wi == width,
                    hi == height,
                    wi * hi <= usize::MAX,
                    n == wi * hi,
                    ts == tiles@,
                    pl == placement@,
                    gw == grid_w,
                    tw == tile_w,
                    th == tile_h,
                    b < placement.len(),
                    *tile == ts[pl[b as int] as int],
                    tile.wf(),
                    tn == tile.width * tile.height,
                    x as int == cell_x(gw, tw, b as int),
                    y as int == cell_y(gw, th, b as int),
                    x + tile.width <= u32::MAX,
                    y + tile.height <= u32::MAX,
                    result.width == width,
                    result.height == height,
                    result.pixels.len() == n,
                    py < tile.height,
                    px <= tile.width,
                    forall|q: int|
                        0 <= q < n ==> #[trigger] result.pixels@[q] == {
                            let qx = q % wi;
                            let qy = q / wi;
                            if covers(ts, pl, gw, tw, th, b as int, qx, qy) && (qy - y < py || (qy - y
                                == py && qx - x < px)) {
                                tile.pixel(qx - x, qy - y)
                            } else {
                                painted(ts, pl, gw, tw, th, b as int, qx, qy)
                            }
                        },
                decreases tile.width - px,
            {
                if x + px < width && y + py < height {
                    proof {
                        lemma_row_major(wi, hi, (x + px) as int, (y + py) as int);
                        lemma_row_major(tile.width as int, tile.height as int, px as int, py as int);
                    }
                    let p0 = (y + py) as usize * width as usize + (x + px) as usize;
                    let v = tile.pixels[py as usize * tile.width as usize + px as usize];
                    let ghost before = result.pixels@;
                    result.pixels.set(p0, v);
                    proof {
                        assert forall|q: int| 0 <= q < n implies #[trigger] result.pixels@[q] == {
                            let qx = q % wi;
                            let qy = q / wi;
                            if covers(ts, pl, gw, tw, th, b as int, qx, qy) && (qy - y < py || (qy - y
                                == py && qx - x < px + 1)) {
                                tile.pixel(qx - x, qy - y)
                            } else {
                                painted(ts, pl, gw, tw, th, b as int, qx, qy)
                            }
                        } by {
                            vstd::arithmetic::div_mod::lemma_fundamental_div_mod(q, wi);
                            if q != p0 as int {
                                assert(result.pixels@[q] == before[q]);
                                if q % wi == x + px && q / wi == y + py {
                                    assert(q == wi * (q / wi) + q % wi);
                                    assert(p0 as int == (y + py) * wi + (x + px));
                                    assert(wi * (y + py) == (y + py) * wi) by (nonlinear_arith);
                                    assert(false);
                                }
                            }
                        }
                    }
                } else {
                    proof {
                        assert forall|q: int| 0 <= q < n implies #[trigger] result.pixels@[q] == {
                            let qx = q % wi;
                            let qy = q / wi;
                            if covers(ts, pl, gw, tw, th, b as int, qx, qy) && (qy - y < py || (qy - y
                                == py && qx - x < px + 1)) {
                                tile.pixel(qx - x, qy - y)
                            } else {
                                painted(ts, pl, gw, tw, th, b as int, qx, qy)
                            }
                        } by {
                            vstd::arithmetic::div_mod::lemma_mod_pos_bound(q, wi);
                            vstd::arithmetic::div_mod::lemma_fundamental_div_mod(q, wi);
                            vstd::arithmetic::div_mod::lemma_div_pos_is_pos(q, wi);
                            if q % wi == x + px && q / wi == y + py {
                                assert(q / wi < hi) by (nonlinear_arith)
                                    requires
                                        q == wi * (q / wi) + q % wi,
                                        0 <= q % wi,
                                        q < wi * hi,
                                        0 < wi,
                                ;
                                assert(false);
                            }
                        }
                    }
                }
                px = px + 1;
            }
            py = py + 1;
        }
        b = b + 1;
    }
    proof {
        assert(height * width == width * height) by (nonlinear_arith);
    }
    proof {
        assert forall|x: int, y: int| 0 <= x < result.width && 0 <= y < result.height implies #[trigger] result.pixel(x, y)
            == painted(ts, pl, gw, tw, th, placement.len() as int, x, y) by {
            lemma_row_major(wi, hi, x, y);
        }
    }
    result
}

/// When every tile is the size of a cell and no more blocks than cells are
/// drawn, each pixel of the mosaic shows the tile of its own block at the
/// same place within the cell, or white where no block is.
pub proof fn lemma_uniform_tiles_fill_their_cells(
    tiles: Seq<Raster>,
    placement: Seq<usize>,
    gw: int,
    gh: int,
    tw: int,
    th: int,
    x: int,
    y: int,
)
    requires
        0 < gw,
        0 < tw,
        0 < th,
        placement.len() <= gw * gh,
        forall|b: int| 0 <= b < placement.len() ==> #[trigger] placement[b] < tiles.len(),
        forall|i: int| 0 <= i < tiles.len() ==> (#[trigger] tiles[i]).width == tw && tiles[i].height == th,
        0 <= x < gw * tw,
        0 <= y < gh * th,
    ensures
        painted(tiles, placement, gw, tw, th, placement.len() as int, x, y) == mosaic_pixel(
            tiles,
            placement,
            gw,
            tw,
            th,
            x,
            y,
        ),
{
    lemma_cell_bounds(gw, gh, tw, th, x, y);
    let c = block_of(gw, tw, th, x, y);
    lemma_painted_uniform(tiles, placement, gw, gh, tw, th, placement.len() as int, x, y);
}

proof fn lemma_painted_uniform(
    tiles: Seq<Raster>,
    placement: Seq<usize>,
    gw: int,
    gh: int,
    tw: int,
    th: int,
    k: int,
    x: int,
    y: int,
)
    requires
        0 < gw,
        0 < tw,
        0 < th,
        0 <= k <= placement.len(),
        placement.len() <= gw * gh,
        forall|b: int| 0 <= b < placement.len() ==> #[trigger] placement[b] < tiles.len(),
        forall|i: int| 0 <= i < tiles.len() ==> (#[trigger] tiles[i]).width == tw && tiles[i].height == th,
        0 <= x < gw * tw,
        0 <= y < gh * th,
    ensures
        painted(tiles, placement, gw, tw, th, k, x, y) == if block_of(gw, tw, th, x, y) < k {
            tiles[placement[block_of(gw, tw, th, x, y)] as int].pixel(x % tw, y % th)
        } else {
            white()
        },
    decreases k,
{
    if k > 0 {
        lemma_painted_uniform(tiles, placement, gw, gh, tw, th, k - 1, x, y);
        let b = k - 1;
        let c = block_of(gw, tw, th, x, y);
        lemma_cell_bounds(gw, gh, tw, th, x, y);
        vstd::arithmetic::div_mod::lemma_fundamental_div_mod(x, tw);
        vstd::arithmetic::div_mod::lemma_fundamental_div_mod(y, th);
        vstd::arithmetic::div_mod::lemma_fundamental_div_mod(b, gw);
        vstd::arithmetic::div_mod::lemma_mod_pos_bound(b, gw);
        vstd::arithmetic::div_mod::lemma_div_pos_is_pos(b, gw);
        assert(tiles[placement[b] as int].width == tw && tiles[placement[b] as int].height == th);
        let cx = x / tw;
        let cy = y / th;
        let bx = b % gw;
        let by = b / gw;
        // block `b` covers `(x, y)` exactly when `b` is the block of `(x, y)`
        if covers(tiles, placement, gw, tw, th, b, x, y) {
            assert(bx == cx) by (nonlinear_arith)
                requires
                    bx * tw <= x < bx * tw + tw,
                    x == tw * cx + x % tw,
                    0 <= x % tw < tw,
                    0 < tw,
            ;
            assert(by == cy) by (nonlinear_arith)
                requires
                    by * th <= y < by * th + th,
                    y == th * cy + y % th,
                    0 <= y % th < th,
                    0 < th,
            ;
            assert(b == c) by (nonlinear_arith)
                requires
                    b == gw * by + bx,
                    c == cy * gw + cx,
                    bx == cx,
                    by == cy,
            ;
            assert(x - bx * tw == x % tw) by (nonlinear_arith)
                requires
                    x == tw * cx + x % tw,
                    bx == cx,
            ;
            assert(y - by * th == y % th) by (nonlinear_arith)
                requires
                    y == th * cy + y % th,
                    by == cy,
            ;
        } else {
            if b == c {
                assert(bx == cx && by == cy) by (nonlinear_arith)
                    requires
                        b == gw * by + bx,
                        b == cy * gw + cx,
                        0 <= bx < gw,
                        0 <= cx < gw,
                ;
                assert(bx * tw <= x < bx * tw + tw) by (nonlinear_arith)
                    requires
                        x == tw * cx + x % tw,
                        0 <= x % tw < tw,
                        bx == cx,
                ;
                assert(by * th <= y < by * th + th) by (nonlinear_arith)
                    requires
                        y == th * cy + y % th,
                        0 <= y % th < th,
                        by == cy,
                ;
                assert(false);
            }
        }
    }
}

/// Resampling a side of `src` pixels to `dst` pixels, output pixel `o` may
/// draw on source pixel `i`: the centre of `i` lies within three source
/// pixels (three output pixels' worth when shrinking), plus a two-pixel
/// margin, of the point that the centre of `o` maps to.
pub open spec fn reaches(src: int, dst: int, i: int, o: int) -> bool {
    let d = (2 * i + 1) * dst - (2 * o + 1) * src;
    let bound = 6 * (if src > dst { src } else { dst }) + 4 * dst;
    -bound <= d <= bound
}

/// Every source pixel (of an `sw` by `sh` image) that output pixel `(x, y)`
/// of an `nw` by `nh` resampling may draw on is `c`.
pub open spec fn uniform_around(
    pixels: Seq<[u8; 4]>,
    sw: int,
    sh: int,
    nw: int,
    nh: int,
    x: int,
    y: int,
    c: [u8; 4],
) -> bool {
    forall|i: int, j: int|
        0 <= i < sw && 0 <= j < sh && #[trigger] reaches(sw, nw, i, x) && #[trigger] reaches(sh, nh, j, y)
            ==> pixels[j * sw + i] == c
}

/// `r` is a Lanczos3 resampling of the `sw` by `sh` image `pixels`: the same
/// image when the size is kept, transparent black from an empty image, and,
/// for sources of at most 512 by 512 pixels, the colour of the source
/// wherever the source is one colour over all the pixels an output pixel
/// draws on.
pub open spec fn resampled_from(pixels: Seq<[u8; 4]>, sw: u32, sh: u32, r: Raster) -> bool {
    &&& (r.width == sw && r.height == sh ==> r.pixels@ == pixels)
    &&& (sw == 0 || sh == 0 ==> forall|i: int|
        0 <= i < r.pixels@.len() ==> #[trigger] r.pixels@[i] == [0u8, 0u8, 0u8, 0u8])
    &&& (0 < sw <= 512 && 0 < sh <= 512 ==> forall|x: int, y: int, c: [u8; 4]|
        0 <= x < r.width && 0 <= y < r.height && #[trigger] uniform_around(
            pixels,
            sw as int,
            sh as int,
            r.width as int,
            r.height as int,
            x,
            y,
            c,
        ) ==> r.pixel(x, y) == c)
}

/// The reach of output pixel `o` (resampling `src` pixels to `dst`) lies in
/// source pixels `lo..hi`: its mapped centre is far enough inside.
pub open spec fn reach_within(src: int, dst: int, lo: int, hi: int, o: int) -> bool {
    let bound = 6 * (if src > dst { src } else { dst }) + 4 * dst;
    &&& (2 * lo - 1) * dst < (2 * o + 1) * src - bound
    &&& (2 * o + 1) * src + bound < (2 * hi + 1) * dst
}

proof fn lemma_reach_within(src: int, dst: int, lo: int, hi: int, o: int, i: int)
    requires
        0 < dst,
        reach_within(src, dst, lo, hi, o),
        reaches(src, dst, i, o),
    ensures
        lo <= i < hi,
{
    let bound = 6 * (if src > dst { src } else { dst }) + 4 * dst;
    assert((2 * lo - 1) * dst < (2 * i + 1) * dst);
    assert((2 * i + 1) * dst < (2 * hi + 1) * dst);
    assert(2 * lo - 1 < 2 * i + 1) by (nonlinear_arith)
        requires
            (2 * lo - 1) * dst < (2 * i + 1) * dst,
            0 < dst,
    ;
    assert(2 * i + 1 < 2 * hi + 1) by (nonlinear_arith)
        requires
            (2 * i + 1) * dst < (2 * hi + 1) * dst,
            0 < dst,
    ;
}

/// Resampling keeps colours in place: where the source (of at most 512 by
/// 512 pixels) is colour `c` over the rectangle of columns `i0..i1` and rows
/// `j0..j1`, every output pixel whose reach lies in that rectangle is `c`.
/// A turned, mirrored or different source breaks this.
pub proof fn lemma_resampled_region_keeps_colour(
    pixels: Seq<[u8; 4]>,
    sw: u32,
    sh: u32,
    r: Raster,
    i0: int,
    i1: int,
    j0: int,
    j1: int,
    c: [u8; 4],
    x: int,
    y: int,
)
    requires
        resampled_from(pixels, sw, sh, r),
        0 < sw <= 512,
        0 < sh <= 512,
        forall|i: int, j: int| 0 <= i < sw && 0 <= j < sh && i0 <= i < i1 && j0 <= j < j1 ==> #[trigger] pixels[j * sw + i] == c,
        0 <= x < r.width,
        0 <= y < r.height,
        reach_within(sw as int, r.width as int, i0, i1, x),
        reach_within(sh as int, r.height as int, j0, j1, y),
    ensures
        r.pixel(x, y) == c,
{
    let nw = r.width as int;
    let nh = r.height as int;
    assert forall|i: int, j: int|
        0 <= i < sw && 0 <= j < sh && #[trigger] reaches(sw as int, nw, i, x) && #[trigger] reaches(sh as int, nh, j, y)
            implies pixels[j * sw + i] == c by {
        lemma_reach_within(sw as int, nw, i0, i1, x, i);
        lemma_reach_within(sh as int, nh, j0, j1, y, j);
    }
    assert(uniform_around(pixels, sw as int, sh as int, nw, nh, x, y, c));
}

/// A one-colour source (of at most 512 by 512 pixels) resamples to that
/// colour at every pixel, whatever the new size.
pub proof fn lemma_resampled_one_colour(pixels: Seq<[u8; 4]>, sw: u32, sh: u32, r: Raster, c: [u8; 4])
    requires
        resampled_from(pixels, sw, sh, r),
        0 < sw <= 512,
        0 < sh <= 512,
        forall|i: int, j: int| 0 <= i < sw && 0 <= j < sh ==> #[trigger] pixels[j * sw + i] == c,
    ensures
        forall|x: int, y: int| 0 <= x < r.width && 0 <= y < r.height ==> #[trigger] r.pixel(x, y) == c,
{
    assert forall|x: int, y: int| 0 <= x < r.width && 0 <= y < r.height implies #[trigger] r.pixel(x, y) == c by {
        assert(uniform_around(pixels, sw as int, sh as int, r.width as int, r.height as int, x, y, c));
    }
}

/// Calls `image::imageops::resize` with `FilterType::Lanczos3`. Trusted: the
/// result has the new size; an image already of that size comes back
/// unchanged (the crate copies it), and an image without pixels gives
/// transparent black (the crate returns a new buffer). Otherwise the crate
/// resamples the columns, then the rows: each output value is a sum of
/// source values times weights that it divides by their sum, over the source
/// pixels from `floor(m - s)` to `ceil(m + s)`, `m` being where the output
/// pixel's centre maps and `s` three pixels (times the shrink ratio when
/// shrinking), then clamped and rounded to the nearest integer. So where
/// every pixel in reach (`reaches`) is one colour the output pixel is that
/// colour; this is stated for sources of at most 512 by 512 pixels, where the
/// `f32` rounding of those sums over at most a few thousand weights stays far
/// below half a unit. The exact resampled pixels are not stated: the weights
/// come from `f32::sin`, whose precision std leaves to the platform. The
/// crate samples through a buffer of `f32` channels, `width` by
/// `new_height`, which must be possible to allocate.
#[verifier::external_body]
pub(crate) fn resize_lanczos3(img: &Raster, new_width: u32, new_height: u32) -> (r: Raster)
    requires
        img.wf(),
        img.width * img.height * 4 <= isize::MAX,
        new_width * new_height * 4 <= isize::MAX,
        img.width * new_height * 16 <= isize::MAX,
    ensures
        r.wf(),
        r.width == new_width,
        r.height == new_height,
        new_width == img.width && new_height == img.height ==> r.pixels@ == img.pixels@,
        img.width == 0 || img.height == 0 ==> forall|i: int|
            0 <= i < r.pixels@.len() ==> #[trigger] r.pixels@[i] == [0u8, 0u8, 0u8, 0u8],
        resampled_from(img.pixels@, img.width, img.height, r),
{
    let buf = image::RgbaImage::from_raw(img.width, img.height, img.pixels.concat()).unwrap();
    let out = image::imageops::resize(&buf, new_width, new_height, image::imageops::FilterType::Lanczos3);
    Raster { width: new_width, height: new_height, pixels: out.pixels().map(|p| p.0).collect() }
}

/// Stretches a tile to the target size.
pub fn resize_stretch(img: &Raster, target_width: u32, target_height: u32) -> (r: Raster)
    requires
        img.wf(),
        img.width * img.height * 4 <= isize::MAX,
        target_width * target_height * 4 <= isize::MAX,
        img.width * target_height * 16 <= isize::MAX,
    ensures
        r.wf(),
        r.width == target_width,
        r.height == target_height,
        target_width == img.width && target_height == img.height ==> r.pixels@ == img.pixels@,
        resampled_from(img.pixels@, img.width, img.height, r),
{
    resize_lanczos3(img, target_width, target_height)
}

/// The rectangle that `crop` takes: the corner moved into the image, the
/// size cut to what the image holds from there.
pub open spec fn crop_rect(iw: u32, ih: u32, x: u32, y: u32, w: u32, h: u32) -> (u32, u32, u32, u32) {
    let x2 = if x < iw { x } else { iw };
    let y2 = if y < ih { y } else { ih };
    let h2 = if h < ih - y2 { h } else { (ih - y2) as u32 };
    let w2 = if w < iw - x2 { w } else { (iw - x2) as u32 };
    (x2, y2, w2, h2)
}

/// The pixels of the part of `img` that `crop` takes, row by row.
pub open spec fn cropped_pixels(img: Raster, x: u32, y: u32, w: u32, h: u32) -> Seq<[u8; 4]> {
    let c = crop_rect(img.width, img.height, x, y, w, h);
    Seq::new(
        (c.2 * c.3) as nat,
        |q: int| img.pixel(c.0 + q % (c.2 as int), c.1 + q / (c.2 as int)),
    )
}

/// The part of `img` of size `w` by `h` at `(x, y)`, cut to the image
/// (`image::imageops::crop_imm`, then `to_image`).
pub fn crop(img: &Raster, x: u32, y: u32, w: u32, h: u32) -> (r: Raster)
    requires
        img.wf(),
    ensures
        r.wf(),
        (r.width, r.height) == ({
            let c = crop_rect(img.width, img.height, x, y, w, h);
            (c.2, c.3)
        }),
        r.pixels@ == cropped_pixels(*img, x, y, w, h),
        forall|cx: int, cy: int|
            0 <= cx < r.width && 0 <= cy < r.height ==> #[trigger] r.pixel(cx, cy) == img.pixel(
                crop_rect(img.width, img.height, x, y, w, h).0 + cx,
                crop_rect(img.width, img.height, x, y, w, h).1 + cy,
            ),
{
    let x2 = if x < img.width { x } else { img.width };
    let y2 = if y < img.height { y } else { img.height };
    let h2 = if h < img.height - y2 { h } else { img.height - y2 };
    let w2 = if w < img.width - x2 { w } else { img.width - x2 };
    let npx = img.pixels.len();
    let mut pixels: Vec<[u8; 4]> = Vec::new();
    proof {
        assert((w2 as int) * (h2 as int) <= (img.width as int) * (img.height as int)) by (nonlinear_arith)
            requires
                w2 <= img.width,
                h2 <= img.height,
        ;
    }
    let mut cy: u32 = 0;
    while cy < h2
        invariant
            img.wf(),
            npx == img.width * img.height,
            x2 + w2 <= img.width,
            y2 + h2 <= img.height,
            (w2 as int) * (h2 as int) <= (img.width as int) * (img.height as int),
            cy <= h2,
            pixels.len() == cy * w2,
            forall|q: int|
                0 <= q < pixels.len() ==> #[trigger] pixels@[q] == img.pixel(x2 + q % (w2 as int), y2 + q / (w2 as int)),
        decreases h2 - cy,
    {
        let mut cx: u32 = 0;
        while cx < w2
            invariant
                img.wf(),
                npx == img.width * img.height,
                x2 + w2 <= img.width,
                y2 + h2 <= img.height,
                (w2 as int) * (h2 as int) <= (img.width as int) * (img.height as int),
                cy < h2,
                cx <= w2,
                pixels.len() == cy * w2 + cx,
                forall|q: int|
                    0 <= q < pixels.len() ==> #[trigger] pixels@[q] == img.pixel(x2 + q % (w2 as int), y2 + q / (w2 as int)),
            decreases w2 - cx,
        {
            proof {
                lemma_row_major(img.width as int, img.height as int, (x2 + cx) as int, (y2 + cy) as int);
                lemma_row_major(w2 as int, h2 as int, cx as int, cy as int);
            }
            let k = (y2 + cy) as usize * img.width as usize + (x2 + cx) as usize;
            let ghost q = pixels.len() as int;
            pixels.push(img.pixels[k]);
            cx = cx + 1;
        }
        proof {
            assert((cy + 1) * w2 == cy * w2 + w2) by (nonlinear_arith);
        }
        cy = cy + 1;
    }
    let r = Raster { width: w2, height: h2, pixels };
    proof {
        assert(h2 * w2 == w2 * h2) by (nonlinear_arith);
        assert(r.pixels@ =~= cropped_pixels(*img, x, y, w, h));
        assert forall|cx: int, cy: int| 0 <= cx < r.width && 0 <= cy < r.height implies #[trigger] r.pixel(cx, cy)
            == img.pixel(x2 + cx, y2 + cy) by {
            lemma_row_major(w2 as int, h2 as int, cx, cy);
        }
    }
    r
}

/// The image turned a quarter clockwise (`image::imageops::rotate90`): the
/// result is `height` wide and `width` high.
pub fn rotate90(img: &Raster) -> (r: Raster)
    requires
        img.wf(),
    ensures
        r.wf(),
        r.width == img.height,
        r.height == img.width,
        forall|x: int, y: int|
            0 <= x < r.width && 0 <= y < r.height ==> #[trigger] r.pixel(x, y) == img.pixel(y, img.height - 1 - x),
{
    let w = img.height;
    let h = img.width;
    let npx = img.pixels.len();
    let mut pixels: Vec<[u8; 4]> = Vec::new();
    let mut y: u32 = 0;
    while y < h
        invariant
            img.wf(),
            npx == img.width * img.height,
            w == img.height,
            h == img.width,
            y <= h,
            pixels.len() == y * w,
            forall|q: int|
                0 <= q < pixels.len() ==> #[trigger] pixels@[q] == img.pixel(q / (w as int), img.height - 1 - q % (w as int)),
        decreases h - y,
    {
        let mut x: u32 = 0;
        while x < w
            invariant
                img.wf(),
                npx == img.width * img.height,
                w == img.height,
                h == img.width,
                y < h,
                x <= w,
                pixels.len() == y * w + x,
                forall|q: int|
                    0 <= q < pixels.len() ==> #[trigger] pixels@[q] == img.pixel(q / (w as int), img.height - 1 - q % (w as int)),
            decreases w - x,
        {
            proof {
                lemma_row_major(img.width as int, img.height as int, y as int, (img.height - 1 - x) as int);
                lemma_row_major(w as int, h as int, x as int, y as int);
            }
            let k = (img.height - 1 - x) as usize * img.width as usize + y as usize;
            pixels.push(img.pixels[k]);
            x = x + 1;
        }
        proof {
            assert((y + 1) * w == y * w + w) by (nonlinear_arith);
        }
        y = y + 1;
    }
    let r = Raster { width: w, height: h, pixels };
    proof {
        assert(h * w == img.width * img.height) by (nonlinear_arith)
            requires
                w == img.height,
                h == img.width,
        ;
        assert forall|x: int, y: int| 0 <= x < r.width && 0 <= y < r.height implies #[trigger] r.pixel(x, y)
            == img.pixel(y, img.height - 1 - x) by {
            lemma_row_major(w as int, h as int, x, y);
        }
    }
    r
}

/// The image turned a quarter counter-clockwise (`image::imageops::rotate270`):
/// the result is `height` wide and `width` high.
pub fn rotate270(img: &Raster) -> (r: Raster)
    requires
        img.wf(),
    ensures
        r.wf(),
        r.width == img.height,
        r.height == img.width,
        forall|x: int, y: int|
            0 <= x < r.width && 0 <= y < r.height ==> #[trigger] r.pixel(x, y) == img.pixel(img.width - 1 - y, x),
{
    let w = img.height;
    let h = img.width;
    let npx = img.pixels.len();
    let mut pixels: Vec<[u8; 4]> = Vec::new();
    let mut y: u32 = 0;
    while y < h
        invariant
            img.wf(),
            npx == img.width * img.height,
            w == img.height,
            h == img.width,
            y <= h,
            pixels.len() == y * w,
            forall|q: int|
                0 <= q < pixels.len() ==> #[trigger] pixels@[q] == img.pixel(img.width - 1 - q / (w as int), q % (w as int)),
        decreases h - y,
    {
        let mut x: u32 = 0;
        while x < w
            invariant
                img.wf(),
                npx == img.width * img.height,
                w == img.height,
                h == img.width,
                y < h,
                x <= w,
                pixels.len() == y * w + x,
                forall|q: int|
                    0 <= q < pixels.len() ==> #[trigger] pixels@[q] == img.pixel(img.width - 1 - q / (w as int), q % (w as int)),
            decreases w - x,
        {
            proof {
                lemma_row_major(img.width as int, img.height as int, (img.width - 1 - y) as int, x as int);
                lemma_row_major(w as int, h as int, x as int, y as int);
            }
            let k = x as usize * img.width as usize + (img.width - 1 - y) as usize;
            pixels.push(img.pixels[k]);
            x = x + 1;
        }
        proof {
            assert((y + 1) * w == y * w + w) by (nonlinear_arith);
        }
        y = y + 1;
    }
    let r = Raster { width: w, height: h, pixels };
    proof {
        assert(h * w == img.width * img.height) by (nonlinear_arith)
            requires
                w == img.height,
                h == img.width,
        ;
        assert forall|x: int, y: int| 0 <= x < r.width && 0 <= y < r.height implies #[trigger] r.pixel(x, y)
            == img.pixel(img.width - 1 - y, x) by {
            lemma_row_major(w as int, h as int, x, y);
        }
    }
    r
}

/// The corner of the centred `crop_width` by `crop_height` part of an image
/// of `w` by `h` pixels.
pub open spec fn center_crop_corner(w: u32, h: u32, crop_width: u32, crop_height: u32) -> (u32, u32) {
    (
        ((if w >= crop_width { w - crop_width } else { 0 }) / 2) as u32,
        ((if h >= crop_height { h - crop_height } else { 0 }) / 2) as u32,
    )
}

/// The `crop_width` by `crop_height` part out of the middle of `img`, cut to
/// the image.
pub fn center_crop(img: &Raster, crop_width: u32, crop_height: u32) -> (r: Raster)
    requires
        img.wf(),
    ensures
        r.wf(),
        ({
            let (x, y) = center_crop_corner(img.width, img.height, crop_width, crop_height);
            let c = crop_rect(img.width, img.height, x, y, crop_width, crop_height);
            &&& r.width == c.2
            &&& r.height == c.3
            &&& r.pixels@ == cropped_pixels(*img, x, y, crop_width, crop_height)
        }),
        r.width <= img.width,
        r.height <= img.height,
{
    let x = img.width.saturating_sub(crop_width) / 2;
    let y = img.height.saturating_sub(crop_height) / 2;
    crop(img, x, y, crop_width, crop_height)
}

/// Centre-crop resizing sees only the centred crop rectangle: when the
/// part of `img` that `center_crop` cuts out (nonempty, at most 512 by 512
/// pixels) is one colour, the tile is that colour everywhere, whatever lies
/// outside the rectangle.
pub proof fn lemma_center_crop_sees_only_crop(
    img: Raster,
    crop_width: u32,
    crop_height: u32,
    r: Raster,
    col: [u8; 4],
)
    requires
        img.wf(),
        ({
            let (x, y) = center_crop_corner(img.width, img.height, crop_width, crop_height);
            let c = crop_rect(img.width, img.height, x, y, crop_width, crop_height);
            &&& resampled_from(cropped_pixels(img, x, y, crop_width, crop_height), c.2, c.3, r)
            &&& 0 < c.2 <= 512
            &&& 0 < c.3 <= 512
            &&& forall|i: int, j: int|
                x <= i < x + c.2 && y <= j < y + c.3 ==> #[trigger] img.pixel(i, j) == col
        }),
    ensures
        forall|px: int, py: int| 0 <= px < r.width && 0 <= py < r.height ==> #[trigger] r.pixel(px, py) == col,
{
    let (x, y) = center_crop_corner(img.width, img.height, crop_width, crop_height);
    let c = crop_rect(img.width, img.height, x, y, crop_width, crop_height);
    let cp = cropped_pixels(img, x, y, crop_width, crop_height);
    assert forall|i: int, j: int| 0 <= i < c.2 && 0 <= j < c.3 implies #[trigger] cp[j * c.2 + i] == col by {
        lemma_row_major(c.2 as int, c.3 as int, i, j);
        assert(img.pixel(x + i, y + j) == col);
    }
    lemma_resampled_one_colour(cp, c.2, c.3, r, col);
}

/// Brings a tile to the target size by cutting `crop_width` by
/// `crop_height` pixels out of its middle (`center_crop`) and resizing that.
pub fn resize_center_crop(
    img: &Raster,
    crop_width: u32,
    crop_height: u32,
    target_width: u32,
    target_height: u32,
) -> (r: Raster)
    requires
        img.wf(),
        img.width * img.height * 4 <= isize::MAX,
        target_width * target_height * 4 <= isize::MAX,
        img.width * target_height * 16 <= isize::MAX,
    ensures
        r.wf(),
        r.width == target_width,
        r.height == target_height,
        ({
            let (x, y) = center_crop_corner(img.width, img.height, crop_width, crop_height);
            let c = crop_rect(img.width, img.height, x, y, crop_width, crop_height);
            &&& (c.2 == target_width && c.3 == target_height ==> r.pixels@ == cropped_pixels(
                *img,
                x,
                y,
                crop_width,
                crop_height,
            ))
            &&& resampled_from(cropped_pixels(*img, x, y, crop_width, crop_height), c.2, c.3, r)
        }),
{
    let cropped = center_crop(img, crop_width, crop_height);
    proof {
        assert((cropped.width as int) * (target_height as int) <= (img.width as int) * (target_height as int)) by (nonlinear_arith)
            requires
                cropped.width <= img.width,
        ;
        assert((cropped.width as int) * (cropped.height as int) <= (img.width as int) * (img.height as int)) by (nonlinear_arith)
            requires
                cropped.width <= img.width,
                cropped.height <= img.height,
        ;
    }
    resize_lanczos3(&cropped, target_width, target_height)
}

/// The corner at which an image of `w` by `h` sits centred in a frame of
/// `tw` by `th` (zero where the image is larger).
pub open spec fn centered_offset(w: u32, tw: u32) -> int {
    (if tw >= w { tw - w } else { 0 }) / 2
}

/// `img` centred on a white frame of `target_width` by `target_height`
/// pixels, cut where it is larger than the frame.
pub fn place_centered(img: &Raster, target_width: u32, target_height: u32) -> (r: Raster)
    requires
        img.wf(),
        target_width * target_height <= usize::MAX,
    ensures
        r.wf(),
        r.width == target_width,
        r.height == target_height,
        forall|x: int, y: int|
            0 <= x < r.width && 0 <= y < r.height ==> #[trigger] r.pixel(x, y) == {
                let x0 = centered_offset(img.width, target_width);
                let y0 = centered_offset(img.height, target_height);
                if x0 <= x < x0 + img.width && y0 <= y < y0 + img.height {
                    img.pixel(x - x0, y - y0)
                } else {
                    white()
                }
            },
{
    let x0 = target_width.saturating_sub(img.width) / 2;
    let y0 = target_height.saturating_sub(img.height) / 2;
    let ghost gx0 = centered_offset(img.width, target_width);
    let ghost gy0 = centered_offset(img.height, target_height);
    let npx = img.pixels.len();
    let mut pixels: Vec<[u8; 4]> = Vec::new();
    let mut y: u32 = 0;
    while y < target_height
        invariant
            img.wf(),
            npx == img.width * img.height,
            x0 == gx0,
            y0 == gy0,
            target_width * target_height <= usize::MAX,
            y <= target_height,
            pixels.len() == y * target_width,
            forall|q: int|
                0 <= q < pixels.len() ==> #[trigger] pixels@[q] == {
                    let px = q % (target_width as int);
                    let py = q / (target_width as int);
                    if gx0 <= px < gx0 + img.width && gy0 <= py < gy0 + img.height {
                        img.pixel(px - gx0, py - gy0)
                    } else {
                        white()
                    }
                },
        decreases target_height - y,
    {
        let mut x: u32 = 0;
        while x < target_width
            invariant
                img.wf(),
                npx == img.width * img.height,
                x0 == gx0,
                y0 == gy0,
                target_width * target_height <= usize::MAX,
                y < target_height,
                x <= target_width,
                pixels.len() == y * target_width + x,
                forall|q: int|
                    0 <= q < pixels.len() ==> #[trigger] pixels@[q] == {
                        let px = q % (target_width as int);
                        let py = q / (target_width as int);
                        if gx0 <= px < gx0 + img.width && gy0 <= py < gy0 + img.height {
                            img.pixel(px - gx0, py - gy0)
                        } else {
                            white()
                        }
                    },
            decreases target_width - x,
        {
            proof {
                lemma_row_major(target_width as int, target_height as int, x as int, y as int);
            }
            let px = if x >= x0 && x - x0 < img.width && y >= y0 && y - y0 < img.height {
                proof {
                    lemma_row_major(img.width as int, img.height as int, (x - x0) as int, (y - y0) as int);
                }
                img.pixels[(y - y0) as usize * img.width as usize + (x - x0) as usize]
            } else {
                [255u8, 255u8, 255u8, 255u8]
            };
            pixels.push(px);
            x = x + 1;
        }
        proof {
            assert((y + 1) * target_width == y * target_width + target_width) by (nonlinear_arith);
        }
        y = y + 1;
    }
    let r = Raster { width: target_width, height: target_height, pixels };
    proof {
        assert(target_height * target_width == target_width * target_height) by (nonlinear_arith);
        assert forall|x: int, y: int| 0 <= x < r.width && 0 <= y < r.height implies #[trigger] r.pixel(x, y) == {
            if gx0 <= x < gx0 + img.width && gy0 <= y < gy0 + img.height {
                img.pixel(x - gx0, y - gy0)
            } else {
                white()
            }
        } by {
            lemma_row_major(target_width as int, target_height as int, x, y);
        }
    }
    r
}

/// `r` shows `m` centred on a white frame: the frame's size, and at each
/// pixel the pixel of `m` that falls there, or white.
pub open spec fn centred_on_white(r: Raster, m: Raster) -> bool {
    forall|x: int, y: int|
        0 <= x < r.width && 0 <= y < r.height ==> #[trigger] r.pixel(x, y) == {
            let x0 = centered_offset(m.width, r.width);
            let y0 = centered_offset(m.height, r.height);
            if x0 <= x < x0 + m.width && y0 <= y < y0 + m.height {
                m.pixel(x - x0, y - y0)
            } else {
                white()
            }
        }
}

/// Brings a tile to the target size by resizing it to `new_width` by
/// `new_height` (its aspect kept) and centring it on a white frame
/// (`place_centered`). The resized pixels come from the resampling and are
/// not stated; the frame around them and their place in it are.
pub fn resize_fit(
    img: &Raster,
    new_width: u32,
    new_height: u32,
    target_width: u32,
    target_height: u32,
) -> (r: Raster)
    requires
        img.wf(),
        img.width * img.height * 4 <= isize::MAX,
        new_width * new_height * 4 <= isize::MAX,
        img.width * new_height * 16 <= isize::MAX,
        target_width * target_height <= usize::MAX,
    ensures
        r.wf(),
        r.width == target_width,
        r.height == target_height,
        exists|m: Raster|
            {
                &&& m.wf()
                &&& m.width == new_width
                &&& m.height == new_height
                &&& (new_width == img.width && new_height == img.height ==> m.pixels@ == img.pixels@)
                &&& resampled_from(img.pixels@, img.width, img.height, m)
                &&& centred_on_white(r, m)
            },
{
    let resized = resize_lanczos3(img, new_width, new_height);
    let r = place_centered(&resized, target_width, target_height);
    assert(centred_on_white(r, resized));
    r
}

} // verus!
