//! Tile assignment in the default ("unfair") mode: every block takes the
//! closest tile, or, when tile use is limited, the closest tile that has not
//! used up its quota, the quota being the number of blocks per tile, rounded
//! up.

use vstd::prelude::*;
use crate::tally::{
    occurrences, sum_upto, lemma_occurrences_push, lemma_occurrences_total, lemma_sum_const,
    lemma_sum_lt_witness, lemma_occurrences_le_len,
};
use crate::lap::cost_at;

verus! {

/// `ceil(total_blocks / num_tiles)`, as the `u32` that tile use counts are compared with.
pub fn tile_quota(total_blocks: usize, num_tiles: usize) -> (q: u32)
    requires
        num_tiles > 0,
        total_blocks + num_tiles <= usize::MAX,
    ensures
        q == ((total_blocks + num_tiles - 1) / (num_tiles as int)) as u32,
{
    ((total_blocks + num_tiles - 1) / num_tiles) as u32
}

/// The tile that block `b` takes, after the blocks before it took the tiles
/// in `before`: of the tiles used fewer than `quota` times, the first one of
/// the least distance key; when every tile has used its quota, the first
/// least-used tile.
pub open spec fn quota_pick(
    keys: Seq<u32>,
    nt: int,
    quota: u32,
    before: Seq<usize>,
    b: int,
    t: int,
) -> bool {
    if exists|j: int| 0 <= j < nt && #[trigger] occurrences(before, j) < quota {
        &&& 0 <= t < nt
        &&& occurrences(before, t) < quota
        &&& forall|j: int|
            0 <= j < nt && #[trigger] occurrences(before, j) < quota ==> cost_at(keys, nt, b, t)
                <= cost_at(keys, nt, b, j)
        &&& forall|j: int|
            0 <= j < t && #[trigger] occurrences(before, j) < quota ==> cost_at(keys, nt, b, t)
                < cost_at(keys, nt, b, j)
    } else {
        &&& 0 <= t < nt
        &&& forall|j: int| 0 <= j < nt ==> occurrences(before, t) <= #[trigger] occurrences(before, j)
        &&& forall|j: int| 0 <= j < t ==> occurrences(before, t) < #[trigger] occurrences(before, j)
    }
}

proof fn lemma_key_index(b: int, t: int, nb: int, nt: int)
    requires
        0 <= b < nb,
        0 <= t < nt,
    ensures
        0 <= b * nt + t < nb * nt,
{
    assert(b * nt + t < (b + 1) * nt) by (nonlinear_arith)
        requires
            0 <= t < nt,
    ;
    assert((b + 1) * nt <= nb * nt) by (nonlinear_arith)
        requires
            b + 1 <= nb,
            0 <= nt,
    ;
    assert(0 <= b * nt) by (nonlinear_arith)
        requires
            0 <= b,
            0 <= nt,
    ;
}

/// Quota-constrained greedy assignment. `keys` holds, row-major, one row per
/// block and one column per tile, the distances as keys that order as the
/// distances do. Block by block, each takes the tile that `quota_pick` names.
pub fn quota_assign(keys: &[u32], num_blocks: usize, num_tiles: usize, quota: u32) -> (res: Vec<usize>)
    requires
        num_tiles > 0,
        num_blocks <= u32::MAX,
        keys@.len() >= num_blocks * num_tiles,
    ensures
        res.len() == num_blocks,
        forall|b: int|
            0 <= b < num_blocks ==> #[trigger] res@[b] < num_tiles && quota_pick(
                keys@,
                num_tiles as int,
                quota,
                res@.take(b),
                b,
                res@[b] as int,
            ),
        quota * num_tiles >= num_blocks ==> forall|t: int|
            0 <= t < num_tiles ==> occurrences(res@, t) <= quota,
{
    let ghost nb = num_blocks as int;
    let ghost nt = num_tiles as int;
    let ghost ks = keys@;
    let ghost roomy = quota * num_tiles >= num_blocks;
    let mut assignments: Vec<usize> = Vec::new();
    let mut tile_usage: Vec<u32> = Vec::new();
    let mut i: usize = 0;
    while i < num_tiles
        invariant
            i <= num_tiles,
            tile_usage.len() == i,
            forall|t: int| 0 <= t < i ==> #[trigger] tile_usage@[t] == 0,
        decreases num_tiles - i,
    {
        tile_usage.push(0);
        i = i + 1;
    }
    let key_count = keys.len();
    assert(key_count == keys@.len());
    let mut block_idx: usize = 0;
    while block_idx < num_blocks
        invariant
            nb == num_blocks,
            nt == num_tiles,
            ks == keys@,
            roomy == (quota * num_tiles >= num_blocks),
            num_tiles > 0,
            num_blocks <= u32::MAX,
            ks.len() >= nb * nt,
            ks.len() <= usize::MAX,
            block_idx <= num_blocks,
            assignments.len() == block_idx,
            tile_usage.len() == num_tiles,
            forall|k: int|
                0 <= k < block_idx ==> #[trigger] assignments@[k] < num_tiles && quota_pick(
                    ks,
                    nt,
                    quota,
                    assignments@.take(k),
                    k,
                    assignments@[k] as int,
                ),
            forall|t: int|
                0 <= t < num_tiles ==> #[trigger] tile_usage@[t] as int == occurrences(assignments@, t),
            roomy ==> forall|t: int| 0 <= t < num_tiles ==> occurrences(assignments@, t) <= quota,
        decreases num_blocks - block_idx,
    {
        let ghost before = assignments@;
        let mut best: Option<usize> = None;
        let mut tile_idx: usize = 0;
        while tile_idx < num_tiles
            invariant
                nb == num_blocks,
                nt == num_tiles,
                ks == keys@,
                ks.len() >= nb * nt,
                ks.len() <= usize::MAX,
                block_idx < num_blocks,
                tile_idx <= num_tiles,
                tile_usage.len() == num_tiles,
                forall|t: int| 0 <= t < num_tiles ==> #[trigger] tile_usage@[t] as int == occurrences(before, t),
                match best {
                    None => forall|j: int| 0 <= j < tile_idx ==> #[trigger] occurrences(before, j) >= quota,
                    Some(bt) => {
                        &&& bt < tile_idx
                        &&& occurrences(before, bt as int) < quota
                        &&& forall|j: int|
                            0 <= j < tile_idx && #[trigger] occurrences(before, j) < quota ==> cost_at(ks, nt, block_idx as int, bt as int)
                                <= cost_at(ks, nt, block_idx as int, j)
                        &&& forall|j: int|
                            0 <= j < bt && #[trigger] occurrences(before, j) < quota ==> cost_at(ks, nt, block_idx as int, bt as int)
                                < cost_at(ks, nt, block_idx as int, j)
                    },
                },
            decreases num_tiles - tile_idx,
        {
            if tile_usage[tile_idx] < quota {
                proof {
                    lemma_key_index(block_idx as int, tile_idx as int, nb, nt);
                }
                match best {
                    None => {
                        best = Some(tile_idx);
                    },
                    Some(bt) => {
                        proof {
                            lemma_key_index(block_idx as int, bt as int, nb, nt);
                        }
                        if keys[block_idx * num_tiles + tile_idx] < keys[block_idx * num_tiles + bt] {
                            best = Some(tile_idx);
                        }
                    },
                }
            }
            tile_idx = tile_idx + 1;
        }
        let chosen = match best {
            Some(bt) => bt,
            None => {
                let mut least: usize = 0;
                let mut k: usize = 1;
                while k < num_tiles
                    invariant
                        nt == num_tiles,
                        1 <= k <= num_tiles,
                        least < k,
                        tile_usage.len() == num_tiles,
                        forall|j: int| 0 <= j < k ==> tile_usage@[least as int] <= #[trigger] tile_usage@[j],
                        forall|j: int| 0 <= j < least ==> tile_usage@[least as int] < #[trigger] tile_usage@[j],
                    decreases num_tiles - k,
                {
                    if tile_usage[k] < tile_usage[least] {
                        least = k;
                    }
                    k = k + 1;
                }
                proof {
                    assert forall|j: int| 0 <= j < nt implies occurrences(before, least as int) <= #[trigger] occurrences(before, j) by {
                        assert(tile_usage@[j] as int == occurrences(before, j));
                        assert(tile_usage@[least as int] as int == occurrences(before, least as int));
                    }
                    assert forall|j: int| 0 <= j < least implies occurrences(before, least as int) < #[trigger] occurrences(before, j) by {
                        assert(tile_usage@[j] as int == occurrences(before, j));
                        assert(tile_usage@[least as int] as int == occurrences(before, least as int));
                    }
                }
                least
            },
        };
        proof {
            assert(assignments@.take(block_idx as int) =~= before);
            assert(quota_pick(ks, nt, quota, before, block_idx as int, chosen as int));
            if roomy {
                // some tile still has room, so the quota is never exceeded
                assert forall|k: int| 0 <= k < before.len() implies (#[trigger] before[k]) < nt by {}
                lemma_occurrences_total(before, nt);
                lemma_sum_const(quota as int, nt);
                assert(quota as int * nt == quota * num_tiles);
                let k = lemma_sum_lt_witness(|t: int| occurrences(before, t) as int, |t: int| quota as int, nt);
                assert(occurrences(before, k) < quota);
                assert(best is Some);
            }
            lemma_occurrences_le_len(before, chosen as int);
        }
        assignments.push(chosen);
        tile_usage.set(chosen, tile_usage[chosen] + 1);
        proof {
            assert forall|t: int| 0 <= t < num_tiles implies occurrences(assignments@, t) == occurrences(before, t)
                + if t == chosen { 1nat } else { 0nat } by {
                lemma_occurrences_push(before, chosen, t);
            }
            assert forall|k: int| 0 <= k < block_idx implies assignments@.take(k) =~= before.take(k) by {}
            assert(assignments@.take(block_idx as int) =~= before);
            assert forall|k: int|
                0 <= k < block_idx + 1 implies #[trigger] assignments@[k] < num_tiles && quota_pick(
                    ks,
                    nt,
                    quota,
                    assignments@.take(k),
                    k,
                    assignments@[k] as int,
                ) by {
                if k < block_idx {
                    assert(assignments@[k] == before[k]);
                    assert(assignments@.take(k) =~= before.take(k));
                    assert(before.take(k) =~= assignments@.take(k));
                }
            }
        }
        block_idx = block_idx + 1;
    }
    assignments
}

/// The default-mode assignment: the quota is `ceil(total_blocks / num_tiles)`,
/// so no tile is used more often than that.
pub fn unfair_assignment(keys: &[u32], total_blocks: usize, num_tiles: usize) -> (res: Vec<usize>)
    requires
        num_tiles > 0,
        total_blocks <= u32::MAX,
        total_blocks + num_tiles <= usize::MAX,
        keys@.len() >= total_blocks * num_tiles,
    ensures
        res.len() == total_blocks,
        forall|b: int|
            0 <= b < total_blocks ==> #[trigger] res@[b] < num_tiles && quota_pick(
                keys@,
                num_tiles as int,
                ((total_blocks + num_tiles - 1) / (num_tiles as int)) as u32,
                res@.take(b),
                b,
                res@[b] as int,
            ),
        forall|t: int|
            0 <= t < num_tiles ==> occurrences(res@, t) <= (total_blocks + num_tiles - 1) / (
            num_tiles as int),
{
    let quota = tile_quota(total_blocks, num_tiles);
    proof {
        let q = (total_blocks + num_tiles - 1) / (num_tiles as int);
        vstd::arithmetic::div_mod::lemma_fundamental_div_mod(total_blocks + num_tiles - 1, num_tiles as int);
        assert(q <= total_blocks) by {
            if total_blocks == 0 {
                vstd::arithmetic::div_mod::lemma_basic_div(num_tiles - 1, num_tiles as int);
            } else {
                assert(total_blocks + num_tiles - 1 <= total_blocks * num_tiles) by (nonlinear_arith)
                    requires
                        total_blocks >= 1,
                        num_tiles >= 1,
                ;
                vstd::arithmetic::div_mod::lemma_div_is_ordered(
                    total_blocks + num_tiles - 1,
                    total_blocks * num_tiles,
                    num_tiles as int,
                );
                vstd::arithmetic::div_mod::lemma_div_multiples_vanish(total_blocks as int, num_tiles as int);
                assert(total_blocks * num_tiles == num_tiles * total_blocks) by (nonlinear_arith);
            }
        }
        assert(quota == q);
        assert(q * num_tiles >= total_blocks) by (nonlinear_arith)
            requires
                total_blocks + num_tiles - 1 == num_tiles * q + (total_blocks + num_tiles - 1) % (num_tiles as int),
                0 <= (total_blocks + num_tiles - 1) % (num_tiles as int) < num_tiles,
        ;
    }
    quota_assign(keys, total_blocks, num_tiles, quota)
}

/// Tile `t` is the first tile of the least distance key for block `b`.
pub open spec fn best_pick(keys: Seq<u32>, nt: int, b: int, t: int) -> bool {
    &&& 0 <= t < nt
    &&& forall|j: int| 0 <= j < nt ==> cost_at(keys, nt, b, t) <= #[trigger] cost_at(keys, nt, b, j)
    &&& forall|j: int| 0 <= j < t ==> cost_at(keys, nt, b, t) < #[trigger] cost_at(keys, nt, b, j)
}

/// The best-fit assignment: every block takes the first tile of the least
/// distance key, however often that tile is used already. (A quota that no
/// tile can reach leaves every tile available to every block.)
pub fn best_fit_assignment(keys: &[u32], total_blocks: usize, num_tiles: usize) -> (res: Vec<usize>)
    requires
        num_tiles > 0,
        total_blocks <= u32::MAX,
        keys@.len() >= total_blocks * num_tiles,
    ensures
        res.len() == total_blocks,
        forall|b: int| 0 <= b < total_blocks ==> best_pick(keys@, num_tiles as int, b, #[trigger] res@[b] as int),
{
    let res = quota_assign(keys, total_blocks, num_tiles, u32::MAX);
    proof {
        assert forall|b: int| 0 <= b < total_blocks implies best_pick(keys@, num_tiles as int, b, #[trigger] res@[b] as int) by {
            let before = res@.take(b);
            assert(quota_pick(keys@, num_tiles as int, u32::MAX, before, b, res@[b] as int));
            lemma_occurrences_le_len(before, 0);
            assert(occurrences(before, 0) < u32::MAX);
            let t = res@[b] as int;
            let nt = num_tiles as int;
            assert forall|j: int| 0 <= j < nt implies cost_at(keys@, nt, b, t) <= #[trigger] cost_at(keys@, nt, b, j) by {
                lemma_occurrences_le_len(before, j);
                assert(occurrences(before, j) < u32::MAX);
            }
            assert forall|j: int| 0 <= j < t implies cost_at(keys@, nt, b, t) < #[trigger] cost_at(keys@, nt, b, j) by {
                lemma_occurrences_le_len(before, j);
                assert(occurrences(before, j) < u32::MAX);
            }
        }
    }
    res
}

/// Two blocks' picks after the same earlier picks agree: `quota_pick` names
/// one tile.
pub proof fn lemma_quota_pick_unique(keys: Seq<u32>, nt: int, quota: u32, before: Seq<usize>, b: int, t1: int, t2: int)
    requires
        quota_pick(keys, nt, quota, before, b, t1),
        quota_pick(keys, nt, quota, before, b, t2),
    ensures
        t1 == t2,
{
    if exists|j: int| 0 <= j < nt && #[trigger] occurrences(before, j) < quota {
        if t1 < t2 {
            assert(occurrences(before, t1) < quota);
        } else if t2 < t1 {
            assert(occurrences(before, t2) < quota);
        }
    } else {
        if t1 < t2 {
            assert(occurrences(before, t2) <= occurrences(before, t1));
        } else if t2 < t1 {
            assert(occurrences(before, t1) <= occurrences(before, t2));
        }
    }
}

/// `best_pick` names one tile.
pub proof fn lemma_best_pick_unique(keys: Seq<u32>, nt: int, b: int, t1: int, t2: int)
    requires
        best_pick(keys, nt, b, t1),
        best_pick(keys, nt, b, t2),
    ensures
        t1 == t2,
{
    if t1 < t2 {
        assert(cost_at(keys, nt, b, t2) <= cost_at(keys, nt, b, t1));
    } else if t2 < t1 {
        assert(cost_at(keys, nt, b, t1) <= cost_at(keys, nt, b, t2));
    }
}

} // verus!
