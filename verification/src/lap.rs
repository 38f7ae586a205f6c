//! Approximate linear assignment with fairness enforcement.
//!
//! Blocks (rows of the cost matrix) are assigned to tiles (columns) one block
//! at a time. Every tile has a capacity: `num_blocks / num_tiles`, plus one for
//! the first `num_blocks % num_tiles` tiles. The capacities add up to
//! `num_blocks`, and both approximate solvers keep every tile within its
//! capacity, so in the end every tile is used exactly its capacity.

use vstd::prelude::*;
use crate::tally::{uses, lemma_uses_le_len, sum_upto, lemma_uses_push, lemma_uses_total, lemma_sum_lt_witness, lemma_sum_eq_pointwise};

verus! {

/// Problems of at least this many matrix entries are solved approximately;
/// smaller ones are left to the exact solver.
pub const APPROX_THRESHOLD: usize = 1_000_000;

/// The cost of assigning block `b` to tile `t` in a row-major matrix with `nt` columns.
pub open spec fn cost_at(cm: Seq<u32>, nt: int, b: int, t: int) -> u32 {
    cm[b * nt + t]
}

/// How many blocks tile `t` may take.
pub open spec fn tile_capacity(nb: int, nt: int, t: int) -> int {
    nb / nt + if t < nb % nt { 1int } else { 0int }
}

/// Tile `t` has been used fewer times than its capacity in `before`.
pub open spec fn has_room(nb: int, nt: int, before: Seq<Option<usize>>, t: int) -> bool {
    (uses(before, t) as int) < tile_capacity(nb, nt, t)
}

/// The tile that the greedy solver gives block `b`, after the blocks before it
/// were assigned as in `before`: the first cheapest tile with room, when some
/// tile with room costs less than `u32::MAX`; otherwise tile 0 if it has room;
/// otherwise the first least-used tile.
pub open spec fn greedy_pick(
    cm: Seq<u32>,
    nb: int,
    nt: int,
    before: Seq<Option<usize>>,
    b: int,
    t: int,
) -> bool {
    if exists|j: int|
        0 <= j < nt && #[trigger] has_room(nb, nt, before, j) && cost_at(cm, nt, b, j) < u32::MAX {
        &&& 0 <= t < nt
        &&& has_room(nb, nt, before, t)
        &&& forall|j: int|
            0 <= j < nt && #[trigger] has_room(nb, nt, before, j) ==> cost_at(cm, nt, b, t) <= cost_at(
                cm,
                nt,
                b,
                j,
            )
        &&& forall|j: int|
            0 <= j < t && #[trigger] has_room(nb, nt, before, j) ==> cost_at(cm, nt, b, t) < cost_at(
                cm,
                nt,
                b,
                j,
            )
    } else if has_room(nb, nt, before, 0) {
        t == 0
    } else {
        &&& 0 <= t < nt
        &&& forall|j: int| 0 <= j < nt ==> uses(before, t) <= #[trigger] uses(before, j)
        &&& forall|j: int| 0 <= j < t ==> uses(before, t) < #[trigger] uses(before, j)
    }
}

proof fn lemma_index_in_matrix(b: int, t: int, nb: int, nt: int)
    requires
        0 <= b < nb,
        0 <= t < nt,
    ensures
        0 <= b * nt + t < nb * nt,
        b * nt + t + 1 <= nb * nt,
{
    assert(b * nt + t < (b + 1) * nt) by (nonlinear_arith)
        requires
            0 <= t < nt,
    ;
    assert((b + 1) * nt <= nb * nt) by (nonlinear_arith)
        requires
            b + 1 <= nb,
            0 <= nt,
    ;
    assert(0 <= b * nt) by (nonlinear_arith)
        requires
            0 <= b,
            0 <= nt,
    ;
}

proof fn lemma_base_capacity_bound(nb: int, nt: int)
    requires
        0 <= nb,
        0 < nt,
    ensures
        nb / nt <= nb,
        nb % nt > 0 ==> nb / nt < nb,
{
    vstd::arithmetic::div_mod::lemma_fundamental_div_mod(nb, nt);
    vstd::arithmetic::div_mod::lemma_div_pos_is_pos(nb, nt);
    assert(nb / nt <= nt * (nb / nt)) by (nonlinear_arith)
        requires
            0 <= nb / nt,
            0 < nt,
    ;
}

/// The capacities of all tiles add up to the number of blocks.
pub proof fn lemma_capacity_total(nb: int, nt: int)
    requires
        0 <= nb,
        0 < nt,
    ensures
        sum_upto(|t: int| tile_capacity(nb, nt, t), nt) == nb,
{
    lemma_capacity_prefix(nb, nt, nt);
    vstd::arithmetic::div_mod::lemma_fundamental_div_mod(nb, nt);
    assert(nt * (nb / nt) == (nb / nt) * nt) by (nonlinear_arith);
}

proof fn lemma_capacity_prefix(nb: int, nt: int, n: int)
    requires
        0 <= nb,
        0 < nt,
        0 <= n <= nt,
    ensures
        sum_upto(|t: int| tile_capacity(nb, nt, t), n) == n * (nb / nt) + if n < nb % nt {
            n
        } else {
            nb % nt
        },
    decreases n,
{
    let g = |t: int| tile_capacity(nb, nt, t);
    if n > 0 {
        lemma_capacity_prefix(nb, nt, n - 1);
        assert(sum_upto(g, n) == sum_upto(g, n - 1) + g(n - 1));
        assert(n * (nb / nt) == (n - 1) * (nb / nt) + nb / nt) by (nonlinear_arith);
    } else {
        assert(sum_upto(g, n) == 0);
    }
}

/// With the uses of `before` within capacity and fewer blocks assigned than
/// there are in all, some tile still has room.
proof fn lemma_room_exists(nb: int, nt: int, before: Seq<Option<usize>>) -> (k: int)
    requires
        0 < nt,
        before.len() < nb,
        forall|i: int| 0 <= i < before.len() ==> (#[trigger] before[i]) is Some && before[i].unwrap() < nt,
        forall|t: int| 0 <= t < nt ==> (uses(before, t) as int) <= tile_capacity(nb, nt, t),
    ensures
        0 <= k < nt,
        has_room(nb, nt, before, k),
{
    lemma_uses_total(before, nt);
    lemma_capacity_total(nb, nt);
    lemma_sum_lt_witness(|t: int| uses(before, t) as int, |t: int| tile_capacity(nb, nt, t), nt)
}

/// Capacity-constrained greedy assignment: each block in turn takes the
/// cheapest tile that has not reached its capacity. Problems with fewer than
/// `APPROX_THRESHOLD` entries are left to the exact solver: every block is `None`.
pub fn fair_greedy_lap(cost_matrix: &[u32], num_blocks: usize, num_tiles: usize) -> (res: Vec<
    Option<usize>,
>)
    requires
        num_blocks * num_tiles <= usize::MAX,
        num_blocks * num_tiles >= APPROX_THRESHOLD ==> cost_matrix@.len() >= num_blocks
            * num_tiles,
    ensures
        res.len() == num_blocks,
        num_blocks * num_tiles < APPROX_THRESHOLD ==> forall|b: int|
            0 <= b < num_blocks ==> #[trigger] res@[b] == None::<usize>,
        num_blocks * num_tiles >= APPROX_THRESHOLD ==> forall|b: int|
            0 <= b < num_blocks ==> (#[trigger] res@[b]) is Some && greedy_pick(
                cost_matrix@,
                num_blocks as int,
                num_tiles as int,
                res@.take(b),
                b,
                res@[b].unwrap() as int,
            ),
        num_blocks * num_tiles >= APPROX_THRESHOLD ==> forall|t: int|
            0 <= t < num_tiles ==> uses(res@, t) == tile_capacity(
                num_blocks as int,
                num_tiles as int,
                t,
            ),
{
    let mut assignment: Vec<Option<usize>> = Vec::new();
    let mut i: usize = 0;
    while i < num_blocks
        invariant
            i <= num_blocks,
            assignment.len() == i,
            forall|b: int| 0 <= b < i ==> #[trigger] assignment@[b] == None::<usize>,
        decreases num_blocks - i,
    {
        assignment.push(None);
        i = i + 1;
    }
    if num_blocks * num_tiles < APPROX_THRESHOLD {
        return assignment;
    }
    let ghost nb = num_blocks as int;
    let ghost nt = num_tiles as int;
    let ghost cm = cost_matrix@;
    let mut tile_used_count: Vec<usize> = Vec::new();
    let mut i: usize = 0;
    while i < num_tiles
        invariant
            i <= num_tiles,
            tile_used_count.len() == i,
            forall|t: int| 0 <= t < i ==> #[trigger] tile_used_count@[t] == 0,
        decreases num_tiles - i,
    {
        tile_used_count.push(0);
        i = i + 1;
    }
    assert(num_tiles > 0);
    let base_capacity = num_blocks / num_tiles;
    let remainder = num_blocks % num_tiles;
    proof {
        lemma_base_capacity_bound(nb, nt);
    }

    let mut block_idx: usize = 0;
    while block_idx < num_blocks
        invariant
            nb == num_blocks,
            nt == num_tiles,
            cm == cost_matrix@,
            num_tiles > 0,
            cm.len() >= nb * nt,
            base_capacity == nb / nt,
            remainder == nb % nt,
            remainder > 0 ==> base_capacity < num_blocks,
            num_blocks * num_tiles <= usize::MAX,
            block_idx <= num_blocks,
            assignment.len() == num_blocks,
            tile_used_count.len() == num_tiles,
            forall|k: int| block_idx <= k < num_blocks ==> #[trigger] assignment@[k] == None::<usize>,
            forall|k: int|
                0 <= k < block_idx ==> (#[trigger] assignment@[k]) is Some && assignment@[k].unwrap()
                    < num_tiles && greedy_pick(
                    cm,
                    nb,
                    nt,
                    assignment@.take(k),
                    k,
                    assignment@[k].unwrap() as int,
                ),
            forall|t: int|
                0 <= t < num_tiles ==> #[trigger] tile_used_count@[t] as int == uses(
                    assignment@.take(block_idx as int),
                    t,
                ),
            forall|t: int|
                0 <= t < num_tiles ==> (uses(assignment@.take(block_idx as int), t) as int)
                    <= tile_capacity(nb, nt, t),
        decreases num_blocks - block_idx,
    {
        let ghost before = assignment@.take(block_idx as int);
        assert forall|i: int| 0 <= i < before.len() implies (#[trigger] before[i]) is Some
            && before[i].unwrap() < nt by {
            assert(before[i] == assignment@[i]);
        }
        proof {
            lemma_room_exists(nb, nt, before);
        }
        let mut best_tile: usize = 0;
        let mut best_cost: u32 = u32::MAX;
        let mut tile_idx: usize = 0;
        while tile_idx < num_tiles
            invariant
                nb == num_blocks,
                nt == num_tiles,
                cm == cost_matrix@,
                cm.len() >= nb * nt,
                base_capacity == nb / nt,
                remainder == nb % nt,
                remainder > 0 ==> base_capacity < num_blocks,
                num_blocks * num_tiles <= usize::MAX,
                block_idx < num_blocks,
                tile_idx <= num_tiles,
                tile_used_count.len() == num_tiles,
                forall|t: int|
                    0 <= t < num_tiles ==> #[trigger] tile_used_count@[t] as int == uses(before, t),
                best_tile < num_tiles,
                best_cost < u32::MAX ==> {
                    &&& best_tile < tile_idx
                    &&& has_room(nb, nt, before, best_tile as int)
                    &&& best_cost == cost_at(cm, nt, block_idx as int, best_tile as int)
                    &&& forall|j: int| 0 <= j < best_tile && #[trigger] has_room(nb, nt, before, j)
                        ==> best_cost < cost_at(cm, nt, block_idx as int, j)
                },
                best_cost == u32::MAX ==> best_tile == 0,
                forall|j: int|
                    0 <= j < tile_idx && #[trigger] has_room(nb, nt, before, j) ==> best_cost
                        <= cost_at(cm, nt, block_idx as int, j),
            decreases num_tiles - tile_idx,
        {
            proof {
                lemma_index_in_matrix(block_idx as int, tile_idx as int, nb, nt);
            }
            let cost = cost_matrix[block_idx * num_tiles + tile_idx];
            let usage = tile_used_count[tile_idx];
            let capacity = base_capacity + if tile_idx < remainder {
                1
            } else {
                0
            };
            if usage < capacity && cost < best_cost {
                best_tile = tile_idx;
                best_cost = cost;
            }
            tile_idx = tile_idx + 1;
        }
        let best_capacity = base_capacity + if best_tile < remainder {
            1
        } else {
            0
        };
        if tile_used_count[best_tile] >= best_capacity {
            proof {
                assert forall|t: int| 0 <= t < num_tiles implies #[trigger] tile_used_count@[t] < num_blocks by {
                    lemma_uses_le_len(before, t);
                }
            }
            let mut min_usage: usize = usize::MAX;
            let mut tile_idx: usize = 0;
            while tile_idx < num_tiles
                invariant
                    nt == num_tiles,
                    tile_idx <= num_tiles,
                    tile_used_count.len() == num_tiles,
                    forall|t: int| 0 <= t < num_tiles ==> #[trigger] tile_used_count@[t] < num_blocks,
                    tile_idx == 0 ==> best_tile == 0 && min_usage == usize::MAX,
                    forall|t: int|
                        0 <= t < num_tiles ==> #[trigger] tile_used_count@[t] as int == uses(
                            before,
                            t,
                        ),
                    best_tile < num_tiles,
                    tile_idx > 0 ==> {
                        &&& best_tile < tile_idx
                        &&& min_usage == tile_used_count@[best_tile as int]
                        &&& forall|j: int|
                            0 <= j < tile_idx ==> min_usage <= #[trigger] tile_used_count@[j]
                        &&& forall|j: int|
                            0 <= j < best_tile ==> min_usage < #[trigger] tile_used_count@[j]
                    },
                decreases num_tiles - tile_idx,
            {
                if tile_used_count[tile_idx] < min_usage {
                    best_tile = tile_idx;
                    min_usage = tile_used_count[tile_idx];
                }
                tile_idx = tile_idx + 1;
            }
            proof {
                assert forall|j: int| 0 <= j < nt implies uses(before, best_tile as int) <= #[trigger] uses(
                    before,
                    j,
                ) by {
                    assert(tile_used_count@[j] as int == uses(before, j));
                }
                assert forall|j: int| 0 <= j < best_tile implies uses(before, best_tile as int) < #[trigger] uses(
                    before,
                    j,
                ) by {
                    assert(tile_used_count@[j] as int == uses(before, j));
                }
            }
        }
        proof {
            // the chosen tile has room
            let k = lemma_room_exists(nb, nt, before);
            assert(tile_used_count@[k] as int == uses(before, k));
            assert(tile_used_count@[best_tile as int] as int == uses(before, best_tile as int));
            if !has_room(nb, nt, before, best_tile as int) {
                // only the least-used fallback can pick a full tile; it cannot
                assert(uses(before, best_tile as int) <= uses(before, k));
                if uses(before, best_tile as int) == uses(before, k) {
                    assert(best_tile <= k);
                }
                assert(false);
            }
            assert(greedy_pick(cm, nb, nt, before, block_idx as int, best_tile as int));
        }
        let ghost old_assignment = assignment@;
        assignment.set(block_idx, Some(best_tile));
        tile_used_count.set(best_tile, tile_used_count[best_tile] + 1);
        proof {
            assert(assignment@.take(block_idx as int + 1) =~= before.push(Some(best_tile)));
            assert forall|k: int| 0 <= k < block_idx implies assignment@.take(k) =~= old_assignment.take(k) by {
            }
            assert forall|t: int| 0 <= t < num_tiles implies uses(
                assignment@.take(block_idx as int + 1),
                t,
            ) == uses(before, t) + if t == best_tile { 1nat } else { 0nat } by {
                lemma_uses_push(before, Some(best_tile), t);
            }
            assert(assignment@.take(block_idx as int) =~= before);
        }
        block_idx = block_idx + 1;
    }
    proof {
        assert(assignment@.take(nb) =~= assignment@);
        let s = assignment@;
        assert forall|k: int| 0 <= k < s.len() implies (#[trigger] s[k]) is Some && s[k].unwrap() < nt by {}
        lemma_uses_total(s, nt);
        lemma_capacity_total(nb, nt);
        let f = |t: int| uses(s, t) as int;
        let g = |t: int| tile_capacity(nb, nt, t);
        assert forall|t: int| 0 <= t < nt implies #[trigger] f(t) <= g(t) by {
            assert(assignment@.take(nb) =~= s);
        }
        lemma_sum_eq_pointwise(f, g, nt);
        assert forall|t: int| 0 <= t < nt implies uses(s, t) == tile_capacity(nb, nt, t) by {
            assert(f(t) == g(t));
        }
    }
    assignment
}


/// What tile `t` is worth to block `b`: the negated cost, as an `i32`, minus
/// the tile's current price, with two's-complement wrap-around. Cheaper and
/// less contested tiles are worth more.
pub open spec fn bid_value(cm: Seq<u32>, nt: int, b: int, prices: Seq<u32>, t: int) -> i32 {
    (0i32).wrapping_sub(cost_at(cm, nt, b, t) as i32).wrapping_sub(prices[t] as i32)
}

/// Some tile still has room for block `b`.
pub open spec fn auction_has_bid(
    cm: Seq<u32>,
    nb: int,
    nt: int,
    before: Seq<Option<usize>>,
    prices: Seq<u32>,
    b: int,
) -> bool {
    exists|j: int| 0 <= j < nt && #[trigger] has_room(nb, nt, before, j)
}

/// `t` is the first tile with room of the highest value.
pub open spec fn is_auction_winner(
    cm: Seq<u32>,
    nb: int,
    nt: int,
    before: Seq<Option<usize>>,
    prices: Seq<u32>,
    b: int,
    t: int,
) -> bool {
    &&& 0 <= t < nt
    &&& has_room(nb, nt, before, t)
    &&& forall|j: int|
        0 <= j < nt && #[trigger] has_room(nb, nt, before, j) ==> bid_value(cm, nt, b, prices, j)
            <= bid_value(cm, nt, b, prices, t)
    &&& forall|j: int|
        0 <= j < t && #[trigger] has_room(nb, nt, before, j) ==> bid_value(cm, nt, b, prices, j)
            < bid_value(cm, nt, b, prices, t)
}

/// The tile that block `b` goes to: the first tile with room of the highest
/// value, or tile 0 when no tile has room.
pub open spec fn auction_winner(
    cm: Seq<u32>,
    nb: int,
    nt: int,
    before: Seq<Option<usize>>,
    prices: Seq<u32>,
    b: int,
) -> int {
    if auction_has_bid(cm, nb, nt, before, prices, b) {
        choose|t: int| is_auction_winner(cm, nb, nt, before, prices, b, t)
    } else {
        0
    }
}

/// The winning value, `i32::MIN` when no tile has room.
pub open spec fn auction_best_value(
    cm: Seq<u32>,
    nb: int,
    nt: int,
    before: Seq<Option<usize>>,
    prices: Seq<u32>,
    b: int,
) -> i32 {
    if auction_has_bid(cm, nb, nt, before, prices, b) {
        bid_value(cm, nt, b, prices, auction_winner(cm, nb, nt, before, prices, b))
    } else {
        i32::MIN
    }
}

/// `v` is the highest value among the tiles with room other than `w`.
pub open spec fn is_runner_up_value(
    cm: Seq<u32>,
    nb: int,
    nt: int,
    before: Seq<Option<usize>>,
    prices: Seq<u32>,
    b: int,
    w: int,
    v: i32,
) -> bool {
    &&& exists|j: int|
        0 <= j < nt && j != w && #[trigger] has_room(nb, nt, before, j) && bid_value(
            cm,
            nt,
            b,
            prices,
            j,
        ) == v
    &&& forall|j: int|
        0 <= j < nt && j != w && #[trigger] has_room(nb, nt, before, j) ==> bid_value(
            cm,
            nt,
            b,
            prices,
            j,
        ) <= v
}

/// The highest value among the tiles with room other than the winner `w`,
/// `i32::MIN` when there is none.
pub open spec fn auction_runner_up(
    cm: Seq<u32>,
    nb: int,
    nt: int,
    before: Seq<Option<usize>>,
    prices: Seq<u32>,
    b: int,
    w: int,
) -> i32 {
    if exists|j: int| 0 <= j < nt && j != w && #[trigger] has_room(nb, nt, before, j) {
        choose|v: i32| is_runner_up_value(cm, nb, nt, before, prices, b, w, v)
    } else {
        i32::MIN
    }
}

/// The price that the winner gets: the winning margin plus one, wrapping as
/// `i32`, and no less than zero.
pub open spec fn auction_price(best: i32, second: i32) -> u32 {
    let x = best.wrapping_sub(second).wrapping_add(1i32);
    if x > 0 {
        x as u32
    } else {
        0
    }
}

/// The assignment of the first `k` blocks and the tile prices after them.
pub open spec fn auction_state(cm: Seq<u32>, nb: int, nt: int, k: nat) -> (Seq<Option<usize>>, Seq<u32>)
    decreases k,
{
    if k == 0 {
        (Seq::empty(), Seq::new(nt as nat, |i: int| 0u32))
    } else {
        let (before, prices) = auction_state(cm, nb, nt, (k - 1) as nat);
        let b = k - 1;
        let w = auction_winner(cm, nb, nt, before, prices, b);
        let best = auction_best_value(cm, nb, nt, before, prices, b);
        let second = auction_runner_up(cm, nb, nt, before, prices, b, w);
        (before.push(Some(w as usize)), prices.update(w, auction_price(best, second)))
    }
}

/// A tile's value to a block falls as its price rises: for one block and
/// tile, a higher price gives a lower value (for a cost and prices whose sum
/// stays within `i32`), and the value is the negated sum of cost and price.
pub proof fn lemma_bid_falls_with_price(cm: Seq<u32>, nt: int, b: int, prices: Seq<u32>, t: int, p1: u32, p2: u32)
    requires
        0 <= t < prices.len(),
        p1 < p2,
        cost_at(cm, nt, b, t) as int + p2 as int <= i32::MAX as int,
    ensures
        bid_value(cm, nt, b, prices.update(t, p2), t) < bid_value(cm, nt, b, prices.update(t, p1), t),
        bid_value(cm, nt, b, prices.update(t, p1), t) == -(cost_at(cm, nt, b, t) as int) - p1,
{
    let c = cost_at(cm, nt, b, t) as i32;
    assert(c == cost_at(cm, nt, b, t));
    assert(prices.update(t, p1)[t] == p1);
    assert(prices.update(t, p2)[t] == p2);
    assert((0i32).wrapping_sub(c) == -c);
    assert(((0i32).wrapping_sub(c)).wrapping_sub(p1 as i32) == -c - p1);
    assert(((0i32).wrapping_sub(c)).wrapping_sub(p2 as i32) == -c - p2);
}

/// The winner's new price is the winning margin plus one, so it is positive
/// after every win (when that margin plus one fits in `i32`).
pub proof fn lemma_price_covers_margin(best: i32, second: i32)
    requires
        second <= best,
        best - second + 1 <= i32::MAX,
    ensures
        auction_price(best, second) == best - second + 1,
        auction_price(best, second) >= 1,
{
}

proof fn lemma_uses_first_tiles(k: int, t: int)
    requires
        0 <= k <= usize::MAX,
    ensures
        uses(Seq::new(k as nat, |b: int| Some(b as usize)), t) == if 0 <= t < k { 1nat } else { 0nat },
    decreases k,
{
    if k > 0 {
        lemma_uses_first_tiles(k - 1, t);
        let s = Seq::new((k - 1) as nat, |b: int| Some(b as usize));
        assert(Seq::new(k as nat, |b: int| Some(b as usize)) =~= s.push(Some((k - 1) as usize)));
        lemma_uses_push(s, Some((k - 1) as usize), t);
    }
}

/// Prices make the auction spread equally good tiles: when every cost in
/// the rows of the first `m` blocks is the same `v`, there are fewer such
/// blocks than tiles and every tile can take a block, block `b` takes tile
/// `b`, since each tile just won costs one more than an unwon one; each won
/// tile's price is then 1, the others' 0.
pub proof fn lemma_equal_costs_spread(cm: Seq<u32>, nb: int, nt: int, v: u32, m: int)
    requires
        0 < nt <= nb,
        nt <= usize::MAX,
        cm.len() >= nb * nt,
        0 <= m < nt,
        v < i32::MAX,
        forall|b: int, t: int| 0 <= b < m && 0 <= t < nt ==> cost_at(cm, nt, b, t) == v,
    ensures
        auction_state(cm, nb, nt, m as nat).0 == Seq::new(m as nat, |b: int| Some(b as usize)),
        auction_state(cm, nb, nt, m as nat).1 == Seq::new(nt as nat, |t: int| if t < m { 1u32 } else { 0u32 }),
    decreases m,
{
    if m == 0 {
        assert(auction_state(cm, nb, nt, 0).0 =~= Seq::new(0nat, |b: int| Some(b as usize)));
        assert(auction_state(cm, nb, nt, 0).1 =~= Seq::new(nt as nat, |t: int| if t < 0 { 1u32 } else { 0u32 }));
    } else {
        let k = m - 1;
        lemma_equal_costs_spread(cm, nb, nt, v, k);
        let (before, prices) = auction_state(cm, nb, nt, k as nat);
        assert(before == Seq::new(k as nat, |b: int| Some(b as usize)));
        vstd::arithmetic::div_mod::lemma_div_is_ordered(nt, nb, nt);
        vstd::arithmetic::div_mod::lemma_div_by_self(nt);
        assert forall|t: int| 0 <= t < nt implies #[trigger] tile_capacity(nb, nt, t) >= 1 by {}
        assert forall|t: int| 0 <= t < nt implies uses(before, t) == if t < k { 1nat } else { 0nat } by {
            lemma_uses_first_tiles(k, t);
        }
        assert forall|t: int| 0 <= t < nt implies #[trigger] bid_value(cm, nt, k, prices, t) == if t < k {
            -(v as int) - 1
        } else {
            -(v as int)
        } by {
            let c = cost_at(cm, nt, k, t) as i32;
            assert(c == v);
            let p = prices[t];
            assert(p == if t < k { 1u32 } else { 0u32 });
            assert((0i32).wrapping_sub(c) == -c);
            assert(((0i32).wrapping_sub(c)).wrapping_sub(p as i32) == -c - p);
        }
        assert(has_room(nb, nt, before, k));
        assert(has_room(nb, nt, before, k + 1));
        assert(auction_has_bid(cm, nb, nt, before, prices, k));
        assert(is_auction_winner(cm, nb, nt, before, prices, k, k));
        let w = auction_winner(cm, nb, nt, before, prices, k);
        assert(is_auction_winner(cm, nb, nt, before, prices, k, w));
        if w < k {
            assert(bid_value(cm, nt, k, prices, w) < bid_value(cm, nt, k, prices, k));
        } else if w > k {
            assert(bid_value(cm, nt, k, prices, k) < bid_value(cm, nt, k, prices, w));
        }
        assert(w == k);
        let best = auction_best_value(cm, nb, nt, before, prices, k);
        assert(best == -(v as int));
        assert(is_runner_up_value(cm, nb, nt, before, prices, k, k, best));
        let second = auction_runner_up(cm, nb, nt, before, prices, k, k);
        assert(is_runner_up_value(cm, nb, nt, before, prices, k, k, second));
        let js = choose|j: int|
            0 <= j < nt && j != k && #[trigger] has_room(nb, nt, before, j) && bid_value(cm, nt, k, prices, j)
                == second;
        assert(second <= best);
        assert(best <= second);
        assert(auction_price(best, second) == 1u32);
        assert(auction_state(cm, nb, nt, m as nat).0 =~= Seq::new(m as nat, |b: int| Some(b as usize)));
        assert(auction_state(cm, nb, nt, m as nat).1 =~= Seq::new(nt as nat, |t: int| if t < m { 1u32 } else { 0u32 }));
    }
}

/// The auction minimizes cost: the first block, bidding before any price is
/// set, takes its cheapest tile among those that may take a block at all
/// (the costs of its row fitting in `i32`).
pub proof fn lemma_auction_first_block_cheapest(cm: Seq<u32>, nb: int, nt: int, t0: int)
    requires
        0 < nb,
        0 < nt,
        cm.len() >= nb * nt,
        forall|t: int| 0 <= t < nt ==> #[trigger] cm[t] <= i32::MAX,
        0 <= t0 < nt,
        tile_capacity(nb, nt, t0) >= 1,
        forall|t: int| 0 <= t < nt && t != t0 && tile_capacity(nb, nt, t) >= 1 ==> cm[t0] < #[trigger] cm[t],
    ensures
        auction_state(cm, nb, nt, 1).0 == seq![Some(t0 as usize)],
{
    let (before, prices) = auction_state(cm, nb, nt, 0);
    assert(before == Seq::<Option<usize>>::empty());
    assert forall|t: int| 0 <= t < nt implies #[trigger] has_room(nb, nt, before, t) == (tile_capacity(nb, nt, t) >= 1) by {
        assert(uses(before, t) == 0);
    }
    assert forall|t: int| 0 <= t < nt implies #[trigger] bid_value(cm, nt, 0, prices, t) == -(cm[t] as int) by {
        assert(prices[t] == 0u32);
        assert(cost_at(cm, nt, 0, t) == cm[t]);
        let c = cm[t] as i32;
        assert(c == cm[t]);
        assert((0i32).wrapping_sub(c) == -c);
        assert(((0i32).wrapping_sub(c)).wrapping_sub(0i32) == -c);
    }
    assert(has_room(nb, nt, before, t0));
    assert(auction_has_bid(cm, nb, nt, before, prices, 0));
    assert(is_auction_winner(cm, nb, nt, before, prices, 0, t0));
    let w = auction_winner(cm, nb, nt, before, prices, 0);
    assert(is_auction_winner(cm, nb, nt, before, prices, 0, w));
    if w != t0 {
        assert(has_room(nb, nt, before, w));
        assert(bid_value(cm, nt, 0, prices, t0) <= bid_value(cm, nt, 0, prices, w));
        assert(cm[t0] < cm[w]);
    }
    assert(auction_state(cm, nb, nt, 1).0 =~= seq![Some(t0 as usize)]);
}


/// What the scan over the tiles finds is the winner, its value and the runner-up.
proof fn lemma_scan_result(
    cm: Seq<u32>,
    nb: int,
    nt: int,
    before: Seq<Option<usize>>,
    prices: Seq<u32>,
    b: int,
    found: bool,
    best_tile: int,
    best_value: i32,
    second_best_value: i32,
)
    requires
        0 <= best_tile < nt,
        second_best_value <= best_value,
        !found ==> best_tile == 0 && best_value == i32::MIN && second_best_value == i32::MIN,
        !found ==> forall|j: int| 0 <= j < nt ==> !#[trigger] has_room(nb, nt, before, j),
        found ==> {
            &&& has_room(nb, nt, before, best_tile)
            &&& best_value == bid_value(cm, nt, b, prices, best_tile)
            &&& forall|j: int| 0 <= j < best_tile && #[trigger] has_room(nb, nt, before, j)
                ==> bid_value(cm, nt, b, prices, j) < best_value
        },
        forall|j: int| 0 <= j < nt && #[trigger] has_room(nb, nt, before, j)
            ==> bid_value(cm, nt, b, prices, j) <= best_value,
        forall|j: int| 0 <= j < nt && j != best_tile && #[trigger] has_room(nb, nt, before, j)
            ==> bid_value(cm, nt, b, prices, j) <= second_best_value,
        second_best_value > i32::MIN ==> exists|j: int|
            0 <= j < nt && j != best_tile && #[trigger] has_room(nb, nt, before, j)
                && bid_value(cm, nt, b, prices, j) == second_best_value,
    ensures
        found == auction_has_bid(cm, nb, nt, before, prices, b),
        auction_winner(cm, nb, nt, before, prices, b) == best_tile,
        auction_best_value(cm, nb, nt, before, prices, b) == best_value,
        auction_runner_up(cm, nb, nt, before, prices, b, best_tile) == second_best_value,
{
    let w = auction_winner(cm, nb, nt, before, prices, b);
    if auction_has_bid(cm, nb, nt, before, prices, b) {
        let j = choose|j: int| 0 <= j < nt && #[trigger] has_room(nb, nt, before, j);
        assert(found);
        assert(is_auction_winner(cm, nb, nt, before, prices, b, best_tile));
        assert(is_auction_winner(cm, nb, nt, before, prices, b, w));
        if w < best_tile {
            assert(bid_value(cm, nt, b, prices, w) < best_value);
        } else if w > best_tile {
            assert(bid_value(cm, nt, b, prices, best_tile) < bid_value(cm, nt, b, prices, w));
        }
        assert(w == best_tile);
    } else {
        if found {
            assert(has_room(nb, nt, before, best_tile));
            assert(false);
        }
    }
    assert(w == best_tile);
    assert(auction_best_value(cm, nb, nt, before, prices, b) == best_value);
    if exists|j: int| 0 <= j < nt && j != w && #[trigger] has_room(nb, nt, before, j) {
        let j = choose|j: int| 0 <= j < nt && j != w && #[trigger] has_room(nb, nt, before, j);
        let jb = bid_value(cm, nt, b, prices, j);
        if second_best_value == i32::MIN {
            assert(jb <= second_best_value);
            assert(is_runner_up_value(cm, nb, nt, before, prices, b, w, second_best_value));
        } else {
            assert(is_runner_up_value(cm, nb, nt, before, prices, b, w, second_best_value));
        }
        let v = auction_runner_up(cm, nb, nt, before, prices, b, w);
        assert(is_runner_up_value(cm, nb, nt, before, prices, b, w, v));
        let jv = choose|j: int|
            0 <= j < nt && j != w && #[trigger] has_room(nb, nt, before, j) && bid_value(
                cm,
                nt,
                b,
                prices,
                j,
            ) == v;
        let js = choose|j: int|
            0 <= j < nt && j != w && #[trigger] has_room(nb, nt, before, j) && bid_value(
                cm,
                nt,
                b,
                prices,
                j,
            ) == second_best_value;
        assert(v <= second_best_value);
        assert(second_best_value <= v);
    }
    assert(auction_runner_up(cm, nb, nt, before, prices, b, w) == second_best_value);
}

/// The auction itself, at any problem size: each block in turn goes to the
/// first tile with room of the highest value (negated cost minus price), so
/// that it takes the cheapest tile when no prices are set; the winner's price
/// becomes the margin over the runner-up plus one. Every tile ends up used
/// exactly its capacity.
fn auction_assign(cost_matrix: &[u32], num_blocks: usize, num_tiles: usize) -> (res: Vec<
    Option<usize>,
>)
    requires
        num_blocks * num_tiles <= usize::MAX,
        cost_matrix@.len() >= num_blocks * num_tiles,
        num_blocks > 0 ==> num_tiles > 0,
    ensures
        res@ == auction_state(cost_matrix@, num_blocks as int, num_tiles as int, num_blocks as nat).0,
        res.len() == num_blocks,
        forall|b: int| 0 <= b < num_blocks ==> (#[trigger] res@[b]) is Some && res@[b].unwrap() < num_tiles,
        forall|t: int|
            0 <= t < num_tiles ==> uses(res@, t) == tile_capacity(num_blocks as int, num_tiles as int, t),
{
    let mut assignment: Vec<Option<usize>> = Vec::new();
    let mut i: usize = 0;
    while i < num_blocks
        invariant
            i <= num_blocks,
            assignment.len() == i,
            forall|b: int| 0 <= b < i ==> #[trigger] assignment@[b] == None::<usize>,
        decreases num_blocks - i,
    {
        assignment.push(None);
        i = i + 1;
    }
    let ghost nb = num_blocks as int;
    let ghost nt = num_tiles as int;
    let ghost cm = cost_matrix@;
    if num_blocks == 0 {
        proof {
            assert(assignment@ =~= auction_state(cm, nb, nt, 0).0);
            assert forall|t: int| 0 <= t < num_tiles implies uses(assignment@, t) == tile_capacity(nb, nt, t) by {
                lemma_uses_le_len(assignment@, t);
                vstd::arithmetic::div_mod::lemma_small_mod(0nat, nt as nat);
            }
        }
        return assignment;
    }
    let mut tile_used_count: Vec<usize> = Vec::new();
    let mut tile_prices: Vec<u32> = Vec::new();
    let mut i: usize = 0;
    while i < num_tiles
        invariant
            i <= num_tiles,
            tile_used_count.len() == i,
            tile_prices.len() == i,
            forall|t: int| 0 <= t < i ==> #[trigger] tile_used_count@[t] == 0,
            forall|t: int| 0 <= t < i ==> #[trigger] tile_prices@[t] == 0,
        decreases num_tiles - i,
    {
        tile_used_count.push(0);
        tile_prices.push(0);
        i = i + 1;
    }
    let base_capacity = num_blocks / num_tiles;
    let remainder = num_blocks % num_tiles;
    let epsilon = 1u32;
    proof {
        lemma_base_capacity_bound(nb, nt);
        assert(tile_prices@ =~= auction_state(cm, nb, nt, 0).1);
    }
    let ghost mut picks: Seq<Option<usize>> = Seq::empty();

    let mut block_idx: usize = 0;
    while block_idx < num_blocks
        invariant
            nb == num_blocks,
            nt == num_tiles,
            cm == cost_matrix@,
            epsilon == 1u32,
            num_tiles > 0,
            cm.len() >= nb * nt,
            base_capacity == nb / nt,
            remainder == nb % nt,
            remainder > 0 ==> base_capacity < num_blocks,
            num_blocks * num_tiles <= usize::MAX,
            block_idx <= num_blocks,
            assignment.len() == num_blocks,
            tile_used_count.len() == num_tiles,
            tile_prices.len() == num_tiles,
            picks.len() == block_idx,
            (picks, tile_prices@) == auction_state(cm, nb, nt, block_idx as nat),
            forall|k: int| block_idx <= k < num_blocks ==> #[trigger] assignment@[k] == None::<usize>,
            forall|k: int| 0 <= k < block_idx ==> #[trigger] assignment@[k] == picks[k],
            forall|k: int| 0 <= k < block_idx ==> (#[trigger] picks[k]) is Some && picks[k].unwrap() < num_tiles,
            forall|t: int| 0 <= t < num_tiles ==> #[trigger] tile_used_count@[t] as int == uses(picks, t),
            forall|t: int| 0 <= t < num_tiles ==> (uses(picks, t) as int) <= tile_capacity(nb, nt, t),
        decreases num_blocks - block_idx,
    {
        let ghost before = picks;
        let ghost prices = tile_prices@;
        let ghost b = block_idx as int;
        let mut found = false;
        let mut best_tile: usize = 0;
        let mut best_value: i32 = i32::MIN;
        let mut second_best_value: i32 = i32::MIN;
        let mut tile_idx: usize = 0;
        while tile_idx < num_tiles
            invariant
                nb == num_blocks,
                nt == num_tiles,
                cm == cost_matrix@,
                cm.len() >= nb * nt,
                base_capacity == nb / nt,
                remainder == nb % nt,
                remainder > 0 ==> base_capacity < num_blocks,
                num_blocks * num_tiles <= usize::MAX,
                block_idx < num_blocks,
                b == block_idx,
                tile_idx <= num_tiles,
                tile_used_count.len() == num_tiles,
                tile_prices@ == prices,
                prices.len() == num_tiles,
                forall|t: int| 0 <= t < num_tiles ==> #[trigger] tile_used_count@[t] as int == uses(before, t),
                best_tile < num_tiles,
                second_best_value <= best_value,
                !found ==> best_tile == 0 && best_value == i32::MIN && second_best_value == i32::MIN,
                !found ==> forall|j: int| 0 <= j < tile_idx ==> !#[trigger] has_room(nb, nt, before, j),
                found ==> {
                    &&& best_tile < tile_idx
                    &&& has_room(nb, nt, before, best_tile as int)
                    &&& best_value == bid_value(cm, nt, b, prices, best_tile as int)
                    &&& forall|j: int| 0 <= j < best_tile && #[trigger] has_room(nb, nt, before, j)
                        ==> bid_value(cm, nt, b, prices, j) < best_value
                },
                forall|j: int| 0 <= j < tile_idx && #[trigger] has_room(nb, nt, before, j)
                    ==> bid_value(cm, nt, b, prices, j) <= best_value,
                forall|j: int| 0 <= j < tile_idx && j != best_tile && #[trigger] has_room(nb, nt, before, j)
                    ==> bid_value(cm, nt, b, prices, j) <= second_best_value,
                second_best_value > i32::MIN ==> exists|j: int|
                    0 <= j < tile_idx && j != best_tile && #[trigger] has_room(nb, nt, before, j)
                        && bid_value(cm, nt, b, prices, j) == second_best_value,
            decreases num_tiles - tile_idx,
        {
            proof {
                lemma_index_in_matrix(block_idx as int, tile_idx as int, nb, nt);
            }
            let cost = cost_matrix[block_idx * num_tiles + tile_idx] as i32;
            let capacity = base_capacity + if tile_idx < remainder {
                1
            } else {
                0
            };
            let usage = tile_used_count[tile_idx];
            if usage < capacity {
                let value = (0i32).wrapping_sub(cost).wrapping_sub(tile_prices[tile_idx] as i32);
                assert(value == bid_value(cm, nt, b, prices, tile_idx as int));
                if !found {
                    found = true;
                    best_value = value;
                    best_tile = tile_idx;
                } else if value > best_value {
                    let ghost old_best = best_tile as int;
                    assert(has_room(nb, nt, before, old_best));
                    second_best_value = best_value;
                    best_value = value;
                    best_tile = tile_idx;
                    proof {
                        if second_best_value > i32::MIN {
                            assert(old_best != best_tile && has_room(nb, nt, before, old_best)
                                && bid_value(cm, nt, b, prices, old_best) == second_best_value);
                        }
                    }
                } else if value > second_best_value {
                    second_best_value = value;
                    assert(has_room(nb, nt, before, tile_idx as int));
                }
            }
            proof {
                if second_best_value > i32::MIN {
                    let j = choose|j: int|
                        0 <= j < tile_idx + 1 && j != best_tile && #[trigger] has_room(nb, nt, before, j)
                            && bid_value(cm, nt, b, prices, j) == second_best_value;
                }
            }
            tile_idx = tile_idx + 1;
        }
        proof {
            lemma_scan_result(cm, nb, nt, before, prices, b, found, best_tile as int, best_value, second_best_value);
            // the blocks before this one leave some tile with room
            assert forall|i: int| 0 <= i < before.len() implies (#[trigger] before[i]) is Some
                && before[i].unwrap() < nt by {}
            let k = lemma_room_exists(nb, nt, before);
            assert(found);
            lemma_uses_le_len(before, best_tile as int);
        }
        let eps = epsilon as i32;
        assert(eps == 1i32) by (bit_vector)
            requires
                eps == epsilon as i32,
                epsilon == 1u32,
        ;
        let diff = best_value.wrapping_sub(second_best_value).wrapping_add(eps);
        let price: u32 = if diff > 0 {
            diff as u32
        } else {
            0
        };
        let ghost old_assignment = assignment@;
        assignment.set(block_idx, Some(best_tile));
        tile_used_count.set(best_tile, tile_used_count[best_tile] + 1);
        tile_prices.set(best_tile, price);
        proof {
            picks = before.push(Some(best_tile));
            assert(tile_prices@ =~= prices.update(best_tile as int, auction_price(best_value, second_best_value)));
            assert forall|t: int| 0 <= t < num_tiles implies uses(picks, t) == uses(before, t)
                + if t == best_tile { 1nat } else { 0nat } by {
                lemma_uses_push(before, Some(best_tile), t);
            }
            assert forall|k: int| 0 <= k < block_idx + 1 implies #[trigger] assignment@[k] == picks[k] by {
                if k < block_idx {
                    assert(assignment@[k] == old_assignment[k]);
                }
            }
        }
        block_idx = block_idx + 1;
    }
    proof {
        assert(assignment@ =~= picks);
        let s = assignment@;
        assert forall|k: int| 0 <= k < s.len() implies (#[trigger] s[k]) is Some && s[k].unwrap() < nt by {}
        lemma_uses_total(s, nt);
        lemma_capacity_total(nb, nt);
        let f = |t: int| uses(s, t) as int;
        let g = |t: int| tile_capacity(nb, nt, t);
        assert forall|t: int| 0 <= t < nt implies #[trigger] f(t) <= g(t) by {}
        lemma_sum_eq_pointwise(f, g, nt);
        assert forall|t: int| 0 <= t < nt implies uses(s, t) == tile_capacity(nb, nt, t) by {
            assert(f(t) == g(t));
        }
    }
    assignment
}

/// Auction with capacity constraints (`auction_assign`). Problems with fewer
/// than `APPROX_THRESHOLD` entries are left to the exact solver: every block
/// is `None`.
pub fn fair_auction_lap(cost_matrix: &[u32], num_blocks: usize, num_tiles: usize) -> (res: Vec<
    Option<usize>,
>)
    requires
        num_blocks * num_tiles <= usize::MAX,
        num_blocks * num_tiles >= APPROX_THRESHOLD ==> cost_matrix@.len() >= num_blocks * num_tiles,
    ensures
        res.len() == num_blocks,
        num_blocks * num_tiles < APPROX_THRESHOLD ==> forall|b: int|
            0 <= b < num_blocks ==> #[trigger] res@[b] == None::<usize>,
        num_blocks * num_tiles >= APPROX_THRESHOLD ==> {
            &&& res@ == auction_state(cost_matrix@, num_blocks as int, num_tiles as int, num_blocks as nat).0
            &&& forall|b: int| 0 <= b < num_blocks ==> (#[trigger] res@[b]) is Some && res@[b].unwrap() < num_tiles
            &&& forall|t: int|
                0 <= t < num_tiles ==> uses(res@, t) == tile_capacity(num_blocks as int, num_tiles as int, t)
        },
{
    if num_blocks * num_tiles < APPROX_THRESHOLD {
        let mut assignment: Vec<Option<usize>> = Vec::new();
        let mut i: usize = 0;
        while i < num_blocks
            invariant
                i <= num_blocks,
                assignment.len() == i,
                forall|b: int| 0 <= b < i ==> #[trigger] assignment@[b] == None::<usize>,
            decreases num_blocks - i,
        {
            assignment.push(None);
            i = i + 1;
        }
        return assignment;
    }
    auction_assign(cost_matrix, num_blocks, num_tiles)
}

/// Problems below this many matrix entries always go to the exact solver.
pub const EXACT_THRESHOLD: usize = 100_000;

/// Problems of at least this many matrix entries use the greedy solver
/// rather than the auction.
pub const GREEDY_THRESHOLD: usize = 10_000_000;

/// Chooses the solver by problem size: the exact solver (signalled by `None`
/// for every block) below `EXACT_THRESHOLD` entries or when `use_exact` is
/// set, the auction (`auction_assign`, whatever the auction's own cutoff)
/// below `GREEDY_THRESHOLD` entries (every block gets a tile), the greedy
/// solver above.
pub fn solve_lap(cost_matrix: &[u32], num_blocks: usize, num_tiles: usize, use_exact: bool) -> (res:
    Vec<Option<usize>>)
    requires
        num_blocks * num_tiles <= usize::MAX,
        !use_exact && num_blocks * num_tiles >= EXACT_THRESHOLD ==> cost_matrix@.len()
            >= num_blocks * num_tiles,
    ensures
        res.len() == num_blocks,
        use_exact || num_blocks * num_tiles < EXACT_THRESHOLD ==> forall|b: int|
            0 <= b < num_blocks ==> #[trigger] res@[b] == None::<usize>,
        !use_exact && EXACT_THRESHOLD <= num_blocks * num_tiles < GREEDY_THRESHOLD ==> {
            &&& res@ == auction_state(cost_matrix@, num_blocks as int, num_tiles as int, num_blocks as nat).0
            &&& forall|b: int| 0 <= b < num_blocks ==> (#[trigger] res@[b]) is Some && res@[b].unwrap() < num_tiles
        },
        !use_exact && num_blocks * num_tiles >= GREEDY_THRESHOLD ==> forall|b: int|
            0 <= b < num_blocks ==> (#[trigger] res@[b]) is Some && greedy_pick(
                cost_matrix@,
                num_blocks as int,
                num_tiles as int,
                res@.take(b),
                b,
                res@[b].unwrap() as int,
            ),
{
    let problem_size = num_blocks * num_tiles;
    if problem_size < EXACT_THRESHOLD || use_exact {
        let mut assignment: Vec<Option<usize>> = Vec::new();
        let mut i: usize = 0;
        while i < num_blocks
            invariant
                i <= num_blocks,
                assignment.len() == i,
                forall|b: int| 0 <= b < i ==> #[trigger] assignment@[b] == None::<usize>,
            decreases num_blocks - i,
        {
            assignment.push(None);
            i = i + 1;
        }
        return assignment;
    }
    if problem_size < GREEDY_THRESHOLD {
        return auction_assign(cost_matrix, num_blocks, num_tiles);
    }
    fair_greedy_lap(cost_matrix, num_blocks, num_tiles)
}

} // verus!
