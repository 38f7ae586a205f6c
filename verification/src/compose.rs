//! The two ways of making a mosaic once the distances are known: the default
//! mode (best fit, or closest tile within a usage quota) and the fair mode's
//! exact least-cost assignment of tile duplicates. Each gives the
//! assignment, the assembled image and the tile-info text.

use vstd::prelude::*;
use crate::tally::occurrences;
use crate::assign::{
    unfair_assignment, quota_pick, best_fit_assignment, best_pick, lemma_quota_pick_unique,
    lemma_best_pick_unique,
};
use crate::fair::{
    duplicate_sources, duplicate_names, solve_fair_assignment, filled, hungarian_assignment,
    copy_sources, full_assignment, assignment_cost, unsolved_message,
};
use crate::raster::{
    Raster, assemble, mosaic_pixel, painted, drawable_anywhere, lemma_drawable_placement,
    lemma_uniform_tiles_fill_their_cells,
};
use crate::tile_info::{build_tile_info, tile_info_text, names_view};

verus! {

/// What both modes need of the tiles: at least one, each a well-formed image
/// that stays within `u32` coordinates wherever it is drawn, and one name per
/// tile.
pub open spec fn tiles_fit(
    tiles: Seq<Raster>,
    names: Seq<String>,
    grid_w: u32,
    grid_h: u32,
    tile_w: u32,
    tile_h: u32,
) -> bool {
    &&& tiles.len() > 0
    &&& names.len() == tiles.len()
    &&& forall|i: int| 0 <= i < tiles.len() ==> (#[trigger] tiles[i]).wf()
    &&& drawable_anywhere(tiles, grid_w as int, grid_h as int, tile_w as int, tile_h as int)
}

/// Every tile is exactly the size of a cell.
pub open spec fn uniform_tiles(tiles: Seq<Raster>, tile_w: u32, tile_h: u32) -> bool {
    forall|i: int|
        0 <= i < tiles.len() ==> (#[trigger] tiles[i]).width == tile_w && tiles[i].height == tile_h
}

/// The assembled mosaic for a placement of the tiles in the blocks: each
/// pixel is what the drawing of the placed tiles in block order leaves
/// there, and where every tile is the size of a cell, that is the pixel of
/// the tile of the pixel's own block (white past the last block).
pub open spec fn shows_placement(
    image: Raster,
    tiles: Seq<Raster>,
    placement: Seq<usize>,
    grid_w: u32,
    tile_w: u32,
    tile_h: u32,
) -> bool {
    &&& forall|x: int, y: int|
        0 <= x < image.width && 0 <= y < image.height ==> #[trigger] image.pixel(x, y) == painted(
            tiles,
            placement,
            grid_w as int,
            tile_w as int,
            tile_h as int,
            placement.len() as int,
            x,
            y,
        )
    &&& uniform_tiles(tiles, tile_w, tile_h) ==> forall|x: int, y: int|
        0 <= x < image.width && 0 <= y < image.height ==> #[trigger] image.pixel(x, y) == mosaic_pixel(
            tiles,
            placement,
            grid_w as int,
            tile_w as int,
            tile_h as int,
            x,
            y,
        )
}

/// Assembles the mosaic and states both readings of it.
fn assemble_placement(
    tiles: &Vec<Raster>,
    placement: &Vec<usize>,
    grid_w: u32,
    grid_h: u32,
    tile_w: u32,
    tile_h: u32,
) -> (r: Raster)
    requires
        grid_fits(grid_w, grid_h, tile_w, tile_h),
        forall|i: int| 0 <= i < tiles.len() ==> (#[trigger] tiles@[i]).wf(),
        drawable_anywhere(tiles@, grid_w as int, grid_h as int, tile_w as int, tile_h as int),
        placement.len() <= grid_w * grid_h,
        forall|b: int| 0 <= b < placement.len() ==> #[trigger] placement@[b] < tiles.len(),
    ensures
        r.wf(),
        r.width == grid_w * tile_w,
        r.height == grid_h * tile_h,
        shows_placement(r, tiles@, placement@, grid_w, tile_w, tile_h),
{
    proof {
        lemma_drawable_placement(
            tiles@,
            placement@,
            grid_w as int,
            grid_h as int,
            tile_w as int,
            tile_h as int,
        );
    }
    let image = assemble(tiles, placement, grid_w, grid_h, tile_w, tile_h);
    proof {
        if uniform_tiles(tiles@, tile_w, tile_h) {
            assert forall|x: int, y: int|
                0 <= x < image.width && 0 <= y < image.height implies #[trigger] image.pixel(x, y)
                == mosaic_pixel(
                tiles@,
                placement@,
                grid_w as int,
                tile_w as int,
                tile_h as int,
                x,
                y,
            ) by {
                lemma_uniform_tiles_fill_their_cells(
                    tiles@,
                    placement@,
                    grid_w as int,
                    grid_h as int,
                    tile_w as int,
                    tile_h as int,
                    x,
                    y,
                );
            }
        }
    }
    image
}

/// The mosaic is within the machine's limits.
pub open spec fn grid_fits(grid_w: u32, grid_h: u32, tile_w: u32, tile_h: u32) -> bool {
    &&& grid_w > 0
    &&& tile_w > 0
    &&& tile_h > 0
    &&& grid_w * grid_h <= u32::MAX
    &&& grid_w * tile_w <= u32::MAX
    &&& grid_h * tile_h <= u32::MAX
    &&& (grid_w * tile_w) * (grid_h * tile_h) <= usize::MAX
}

/// What the default mode gives for the distance keys, grid and tiles: when
/// tile use is limited, each block takes the closest tile that has not used
/// up its quota of `ceil(blocks / tiles)`, so no tile exceeds it; otherwise
/// each block takes its closest tile. Then the mosaic of that assignment, and
/// its tile-info text.
pub open spec fn unfair_result(
    keys: Seq<u32>,
    grid_w: u32,
    grid_h: u32,
    tiles: Seq<Raster>,
    names: Seq<String>,
    tile_w: u32,
    tile_h: u32,
    limit_usage: bool,
    r: (Vec<usize>, Raster, String),
) -> bool {
    let blocks = grid_w * grid_h;
    let nt = tiles.len() as int;
    let quota = (blocks + nt - 1) / nt;
    &&& r.0.len() == blocks
    &&& limit_usage ==> forall|b: int|
        0 <= b < r.0.len() ==> #[trigger] r.0@[b] < nt && quota_pick(
            keys,
            nt,
            quota as u32,
            r.0@.take(b),
            b,
            r.0@[b] as int,
        )
    &&& limit_usage ==> forall|t: int| 0 <= t < nt ==> occurrences(r.0@, t) <= quota
    &&& !limit_usage ==> forall|b: int| 0 <= b < r.0.len() ==> best_pick(keys, nt, b, #[trigger] r.0@[b] as int)
    &&& r.1.wf()
    &&& r.1.width == grid_w * tile_w
    &&& r.1.height == grid_h * tile_h
    &&& shows_placement(r.1, tiles, r.0@, grid_w, tile_w, tile_h)
    &&& r.2@ == tile_info_text(grid_w, grid_h, r.0@, names_view(names))
}

/// The default mode: `keys` holds one row per block (`grid_w * grid_h`
/// blocks) and one column per tile of distance keys. With `limit_usage`
/// (a positive frequency multiplier) each block takes the closest tile that
/// has not used up its quota of `ceil(blocks / tiles)`; without it, the best
/// fit: each block takes its closest tile.
pub fn compose_unfair(
    keys: &[u32],
    grid_w: u32,
    grid_h: u32,
    tiles: &Vec<Raster>,
    names: &Vec<String>,
    tile_w: u32,
    tile_h: u32,
    limit_usage: bool,
) -> (r: (Vec<usize>, Raster, String))
    requires
        grid_fits(grid_w, grid_h, tile_w, tile_h),
        tiles_fit(tiles@, names@, grid_w, grid_h, tile_w, tile_h),
        (grid_w * grid_h) + tiles.len() <= usize::MAX,
        keys@.len() >= (grid_w * grid_h) * tiles.len(),
    ensures
        unfair_result(keys@, grid_w, grid_h, tiles@, names@, tile_w, tile_h, limit_usage, r),
{
    let total_blocks = (grid_w * grid_h) as usize;
    let assignment = if limit_usage {
        unfair_assignment(keys, total_blocks, tiles.len())
    } else {
        best_fit_assignment(keys, total_blocks, tiles.len())
    };
    let image = assemble_placement(tiles, &assignment, grid_w, grid_h, tile_w, tile_h);
    let info = build_tile_info(grid_w, grid_h, &assignment, names);
    (assignment, image, info)
}

/// The tile shown in each block in fair mode: the tile that the block's
/// duplicate was made from.
pub open spec fn fair_placement(assignment: Seq<usize>, num_tiles: int, total_duplicates: int) -> Seq<usize> {
    assignment.map_values(|d: usize| copy_sources(total_duplicates, num_tiles)[d as int])
}

/// The fair mode: the tiles are duplicated into `total_duplicates` copies
/// (`cost_matrix` holds one row per block and one column per copy), blocks
/// and copies are matched at least total cost by the exact solver, and each
/// block shows the tile its copy was made from; the tile-info text names it.
/// When there are more blocks than copies some block is left without one,
/// and the mode fails.
pub fn compose_fair(
    cost_matrix: &[u32],
    grid_w: u32,
    grid_h: u32,
    tiles: &Vec<Raster>,
    names: &Vec<String>,
    tile_w: u32,
    tile_h: u32,
    total_duplicates: usize,
) -> (r: Result<(Vec<usize>, Raster, String), String>)
    requires
        grid_fits(grid_w, grid_h, tile_w, tile_h),
        tiles_fit(tiles@, names@, grid_w, grid_h, tile_w, tile_h),
        (grid_w * grid_h) * total_duplicates <= cost_matrix@.len(),
        (grid_w * grid_h) * total_duplicates * 8 <= isize::MAX,
    ensures
        r is Ok <==> grid_w * grid_h <= total_duplicates,
        match r {
            Ok(r) => fair_result(cost_matrix@, grid_w, grid_h, tiles@, names@, tile_w, tile_h, total_duplicates, r),
            Err(e) => e@ == unsolved_message(),
        },
{
    let n = tiles.len();
    let total_blocks = (grid_w * grid_h) as usize;
    let sources = duplicate_sources(n, total_duplicates);
    let dup_names = duplicate_names(names, &sources);
    let assignment = match solve_fair_assignment(cost_matrix, total_blocks, total_duplicates) {
        Ok(a) => a,
        Err(e) => {
            return Err(e);
        },
    };
    let ghost srcs = copy_sources(total_duplicates as int, n as int);
    let mut placement: Vec<usize> = Vec::new();
    let mut b: usize = 0;
    while b < assignment.len()
        invariant
            n == tiles.len(),
            sources@ == srcs,
            sources.len() == total_duplicates,
            forall|d: int| 0 <= d < sources.len() ==> #[trigger] sources@[d] < n,
            forall|k: int| 0 <= k < assignment.len() ==> #[trigger] assignment@[k] < total_duplicates,
            b <= assignment.len(),
            placement.len() == b,
            forall|k: int| 0 <= k < b ==> #[trigger] placement@[k] == srcs[assignment@[k] as int],
            forall|k: int| 0 <= k < b ==> #[trigger] placement@[k] < n,
        decreases assignment.len() - b,
    {
        placement.push(sources[assignment[b]]);
        b = b + 1;
    }
    assert(placement@ =~= fair_placement(assignment@, n as int, total_duplicates as int));
    let image = assemble_placement(tiles, &placement, grid_w, grid_h, tile_w, tile_h);
    let info = build_tile_info(grid_w, grid_h, &assignment, &dup_names);
    proof {
        assert(names_view(dup_names@) =~= srcs.map_values(|s: usize| names@[s as int]@));
    }
    Ok((assignment, image, info))
}

/// What fair mode gives for the cost matrix, grid, tiles and number of
/// copies: the solver's assignment of distinct copies at least total cost,
/// the mosaic of the tiles the copies were made from, and the tile-info
/// text that names those tiles.
pub open spec fn fair_result(
    cost_matrix: Seq<u32>,
    grid_w: u32,
    grid_h: u32,
    tiles: Seq<Raster>,
    names: Seq<String>,
    tile_w: u32,
    tile_h: u32,
    total_duplicates: usize,
    r: (Vec<usize>, Raster, String),
) -> bool {
    let blocks = grid_w * grid_h;
    let srcs = copy_sources(total_duplicates as int, tiles.len() as int);
    &&& r.0@ == filled(hungarian_assignment(cost_matrix, blocks as nat, total_duplicates as nat))
    &&& full_assignment(r.0@, blocks as int, total_duplicates as int)
    &&& forall|other: Seq<usize>|
        #[trigger] full_assignment(other, blocks as int, total_duplicates as int) ==> assignment_cost(
            cost_matrix,
            total_duplicates as int,
            r.0@,
        ) <= assignment_cost(cost_matrix, total_duplicates as int, other)
    &&& r.1.wf()
    &&& r.1.width == grid_w * tile_w
    &&& r.1.height == grid_h * tile_h
    &&& shows_placement(
        r.1,
        tiles,
        fair_placement(r.0@, tiles.len() as int, total_duplicates as int),
        grid_w,
        tile_w,
        tile_h,
    )
    &&& r.2@ == tile_info_text(grid_w, grid_h, r.0@, srcs.map_values(|s: usize| names[s as int]@))
}

/// Two images of the same size that agree at every pixel with the drawing
/// of one placement are the same image.
proof fn lemma_raster_determined(
    r1: Raster,
    r2: Raster,
    tiles: Seq<Raster>,
    placement: Seq<usize>,
    grid_w: u32,
    tile_w: u32,
    tile_h: u32,
)
    requires
        r1.wf(),
        r2.wf(),
        r1.width == r2.width,
        r1.height == r2.height,
        shows_placement(r1, tiles, placement, grid_w, tile_w, tile_h),
        shows_placement(r2, tiles, placement, grid_w, tile_w, tile_h),
    ensures
        r1.pixels@ == r2.pixels@,
{
    let w = r1.width as int;
    let h = r1.height as int;
    assert forall|q: int| 0 <= q < r1.pixels@.len() implies r1.pixels@[q] == r2.pixels@[q] by {
        assert(w > 0) by {
            if w == 0 {
                assert(w * h == 0);
            }
        }
        let x = q % w;
        let y = q / w;
        vstd::arithmetic::div_mod::lemma_fundamental_div_mod(q, w);
        vstd::arithmetic::div_mod::lemma_mod_pos_bound(q, w);
        vstd::arithmetic::div_mod::lemma_div_pos_is_pos(q, w);
        assert(y < h) by (nonlinear_arith)
            requires
                q == w * y + x,
                0 <= x,
                q < w * h,
                0 < w,
        ;
        assert(y * w + x == q) by (nonlinear_arith)
            requires
                q == w * y + x,
        ;
        assert(r1.pixel(x, y) == r2.pixel(x, y));
    }
    assert(r1.pixels@ =~= r2.pixels@);
}

proof fn lemma_quota_assignments_agree(
    keys: Seq<u32>,
    nt: int,
    quota: u32,
    a1: Seq<usize>,
    a2: Seq<usize>,
    k: int,
)
    requires
        a1.len() == a2.len(),
        0 <= k <= a1.len(),
        forall|b: int| 0 <= b < a1.len() ==> quota_pick(keys, nt, quota, a1.take(b), b, #[trigger] a1[b] as int),
        forall|b: int| 0 <= b < a2.len() ==> quota_pick(keys, nt, quota, a2.take(b), b, #[trigger] a2[b] as int),
    ensures
        a1.take(k) == a2.take(k),
    decreases k,
{
    if k > 0 {
        lemma_quota_assignments_agree(keys, nt, quota, a1, a2, k - 1);
        let b = k - 1;
        assert(quota_pick(keys, nt, quota, a1.take(b), b, a1[b] as int));
        assert(quota_pick(keys, nt, quota, a2.take(b), b, a2[b] as int));
        lemma_quota_pick_unique(keys, nt, quota, a1.take(b), b, a1[b] as int, a2[b] as int);
        assert(a1.take(k) =~= a1.take(b).push(a1[b]));
        assert(a2.take(k) =~= a2.take(b).push(a2[b]));
    }
}

/// The default mode is deterministic: for the same distance keys, grid,
/// tiles, names and usage limit, any two results it may give are equal in
/// assignment, image and tile-info text.
pub proof fn lemma_unfair_deterministic(
    keys: Seq<u32>,
    grid_w: u32,
    grid_h: u32,
    tiles: Seq<Raster>,
    names: Seq<String>,
    tile_w: u32,
    tile_h: u32,
    limit_usage: bool,
    r1: (Vec<usize>, Raster, String),
    r2: (Vec<usize>, Raster, String),
)
    requires
        unfair_result(keys, grid_w, grid_h, tiles, names, tile_w, tile_h, limit_usage, r1),
        unfair_result(keys, grid_w, grid_h, tiles, names, tile_w, tile_h, limit_usage, r2),
    ensures
        r1.0@ == r2.0@,
        r1.1.width == r2.1.width && r1.1.height == r2.1.height,
        r1.1.pixels@ == r2.1.pixels@,
        r1.2@ == r2.2@,
{
    let nt = tiles.len() as int;
    let a1 = r1.0@;
    let a2 = r2.0@;
    if limit_usage {
        let quota = (((grid_w * grid_h) + nt - 1) / nt) as u32;
        assert forall|b: int| 0 <= b < a1.len() implies quota_pick(keys, nt, quota, a1.take(b), b, #[trigger] a1[b] as int) by {
            assert(r1.0@[b] < nt);
        }
        assert forall|b: int| 0 <= b < a2.len() implies quota_pick(keys, nt, quota, a2.take(b), b, #[trigger] a2[b] as int) by {
            assert(r2.0@[b] < nt);
        }
        lemma_quota_assignments_agree(keys, nt, quota, a1, a2, a1.len() as int);
        assert(a1.take(a1.len() as int) =~= a1);
        assert(a2.take(a2.len() as int) =~= a2);
    } else {
        assert forall|b: int| 0 <= b < a1.len() implies a1[b] == a2[b] by {
            lemma_best_pick_unique(keys, nt, b, a1[b] as int, a2[b] as int);
        }
        assert(a1 =~= a2);
    }
    lemma_raster_determined(r1.1, r2.1, tiles, a1, grid_w, tile_w, tile_h);
}

/// Fair mode is deterministic: its result is fixed by the cost matrix, the
/// grid, the tiles and their names and the number of copies alone (no
/// randomness, and no frequency multiplier or dithering setting among its
/// inputs), so any two results for the same inputs are equal in assignment,
/// image and tile-info text.
pub proof fn lemma_fair_deterministic(
    cost_matrix: Seq<u32>,
    grid_w: u32,
    grid_h: u32,
    tiles: Seq<Raster>,
    names: Seq<String>,
    tile_w: u32,
    tile_h: u32,
    total_duplicates: usize,
    r1: (Vec<usize>, Raster, String),
    r2: (Vec<usize>, Raster, String),
)
    requires
        fair_result(cost_matrix, grid_w, grid_h, tiles, names, tile_w, tile_h, total_duplicates, r1),
        fair_result(cost_matrix, grid_w, grid_h, tiles, names, tile_w, tile_h, total_duplicates, r2),
    ensures
        r1.0@ == r2.0@,
        r1.1.width == r2.1.width && r1.1.height == r2.1.height,
        r1.1.pixels@ == r2.1.pixels@,
        r1.2@ == r2.2@,
{
    lemma_raster_determined(
        r1.1,
        r2.1,
        tiles,
        fair_placement(r1.0@, tiles.len() as int, total_duplicates as int),
        grid_w,
        tile_w,
        tile_h,
    );
}

} // verus!
