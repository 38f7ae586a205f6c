//! Fair mode: the tiles are duplicated, the duplicates are matched to the
//! blocks by an exact assignment solver, and each duplicate is traced back to
//! a tile of the tile set.

use vstd::prelude::*;
use crate::tally::{occurrences, sum_upto, lemma_occurrences_push, lemma_sum_ext};
use crate::lap::{tile_capacity, lemma_capacity_total};

verus! {

/// How many duplicates of tile `t` there are: `total / n`, plus one for the
/// first `total % n` tiles.
pub open spec fn dup_count(total: int, n: int, t: int) -> int {
    tile_capacity(total, n, t)
}

/// The number of duplicates of the tiles before `k`.
pub open spec fn dup_prefix(total: int, n: int, k: int) -> int {
    sum_upto(|i: int| dup_count(total, n, i), k)
}

proof fn lemma_dup_prefix_step(total: int, n: int, k: int)
    requires
        0 <= k,
    ensures
        dup_prefix(total, n, k + 1) == dup_prefix(total, n, k) + dup_count(total, n, k),
{
    let f = |i: int| dup_count(total, n, i);
    assert(sum_upto(f, k + 1) == sum_upto(f, k) + f(k));
}

/// All duplicates together number `total`.
proof fn lemma_dup_prefix_total(total: int, n: int)
    requires
        0 <= total,
        0 < n,
    ensures
        dup_prefix(total, n, n) == total,
{
    lemma_capacity_total(total, n);
    lemma_sum_ext(|i: int| dup_count(total, n, i), |t: int| tile_capacity(total, n, t), n);
}

/// The duplicate counts never shrink the prefix sums.
proof fn lemma_dup_prefix_monotone(total: int, n: int, j: int, k: int)
    requires
        0 <= total,
        0 < n,
        0 <= j <= k,
    ensures
        dup_prefix(total, n, j) <= dup_prefix(total, n, k),
    decreases k - j,
{
    if j < k {
        lemma_dup_prefix_monotone(total, n, j, k - 1);
        lemma_dup_prefix_step(total, n, k - 1);
        vstd::arithmetic::div_mod::lemma_div_pos_is_pos(total, n);
    }
}

/// The sources of the duplicates of the tiles before `k`: tile 0 repeated
/// `dup_count(0)` times, then tile 1, and so on.
pub open spec fn copies_upto(total: int, n: int, k: int) -> Seq<usize>
    decreases k,
{
    if k <= 0 {
        Seq::empty()
    } else {
        copies_upto(total, n, k - 1) + Seq::new(dup_count(total, n, k - 1) as nat, |i: int| (k - 1) as usize)
    }
}

/// For each of the `total` duplicates of `n` tiles, the tile it copies.
pub open spec fn copy_sources(total: int, n: int) -> Seq<usize> {
    copies_upto(total, n, n)
}

/// For each duplicate, in order, the tile that it copies: tile 0 repeated
/// `dup_count(0)` times, then tile 1, and so on.
pub fn duplicate_sources(num_tiles: usize, total_duplicates: usize) -> (res: Vec<usize>)
    requires
        num_tiles > 0,
    ensures
        res@ == copy_sources(total_duplicates as int, num_tiles as int),
        res.len() == total_duplicates,
        forall|d: int| 0 <= d < res.len() ==> #[trigger] res@[d] < num_tiles,
        forall|d: int, e: int| 0 <= d <= e < res.len() ==> #[trigger] res@[d] <= #[trigger] res@[e],
        forall|t: int|
            0 <= t < num_tiles ==> occurrences(res@, t) == dup_count(
                total_duplicates as int,
                num_tiles as int,
                t,
            ),
        forall|d: int|
            0 <= d < res.len() ==> dup_prefix(total_duplicates as int, num_tiles as int, #[trigger] res@[d] as int)
                <= d < dup_prefix(total_duplicates as int, num_tiles as int, res@[d] + 1),
{
    let ghost total = total_duplicates as int;
    let ghost n = num_tiles as int;
    let tiles_per_dup = total_duplicates / num_tiles;
    let remainder = total_duplicates % num_tiles;
    proof {
        vstd::arithmetic::div_mod::lemma_fundamental_div_mod(total, n);
        vstd::arithmetic::div_mod::lemma_div_pos_is_pos(total, n);
        assert(tiles_per_dup <= n * tiles_per_dup) by (nonlinear_arith)
            requires
                0 <= tiles_per_dup,
                0 < n,
        ;
    }
    let mut res: Vec<usize> = Vec::new();
    let mut idx: usize = 0;
    while idx < num_tiles
        invariant
            total == total_duplicates,
            n == num_tiles,
            num_tiles > 0,
            tiles_per_dup == total / n,
            remainder == total % n,
            remainder > 0 ==> tiles_per_dup < total_duplicates,
            idx <= num_tiles,
            res@ == copies_upto(total, n, idx as int),
            res.len() == dup_prefix(total, n, idx as int),
            res.len() <= total_duplicates,
            forall|d: int| 0 <= d < res.len() ==> #[trigger] res@[d] < idx,
            forall|d: int, e: int| 0 <= d <= e < res.len() ==> #[trigger] res@[d] <= #[trigger] res@[e],
            forall|t: int| 0 <= t < num_tiles ==> occurrences(res@, t) == if t < idx {
                dup_count(total, n, t)
            } else {
                0
            },
            forall|d: int|
                0 <= d < res.len() ==> dup_prefix(total, n, #[trigger] res@[d] as int) <= d < dup_prefix(
                    total,
                    n,
                    res@[d] + 1,
                ),
        decreases num_tiles - idx,
    {
        let dup = tiles_per_dup + if idx < remainder {
            1
        } else {
            0
        };
        proof {
            lemma_dup_prefix_step(total, n, idx as int);
            lemma_dup_prefix_monotone(total, n, idx as int + 1, n);
            lemma_dup_prefix_total(total, n);
        }
        let start = res.len();
        let mut c: usize = 0;
        while c < dup
            invariant
                total == total_duplicates,
                n == num_tiles,
                idx < num_tiles,
                dup == dup_count(total, n, idx as int),
                start == dup_prefix(total, n, idx as int),
                start + dup <= total_duplicates,
                c <= dup,
                res@ == copies_upto(total, n, idx as int) + Seq::new(c as nat, |i: int| idx),
                res.len() == start + c,
                forall|d: int| 0 <= d < start ==> #[trigger] res@[d] < idx,
                forall|d: int| start <= d < res.len() ==> #[trigger] res@[d] == idx,
                forall|d: int, e: int| 0 <= d <= e < res.len() ==> #[trigger] res@[d] <= #[trigger] res@[e],
                forall|t: int| 0 <= t < num_tiles ==> occurrences(res@, t) == if t < idx {
                    dup_count(total, n, t)
                } else if t == idx {
                    c as int
                } else {
                    0
                },
                forall|d: int|
                    0 <= d < res.len() ==> dup_prefix(total, n, #[trigger] res@[d] as int) <= d < dup_prefix(
                        total,
                        n,
                        res@[d] + 1,
                    ),
            decreases dup - c,
        {
            let ghost before = res@;
            res.push(idx);
            proof {
                assert(res@ =~= copies_upto(total, n, idx as int) + Seq::new((c + 1) as nat, |i: int| idx));
                assert forall|t: int| 0 <= t < num_tiles implies occurrences(res@, t) == occurrences(before, t)
                    + if t == idx { 1nat } else { 0nat } by {
                    lemma_occurrences_push(before, idx, t);
                }
            }
            c = c + 1;
        }
        assert(res@ =~= copies_upto(total, n, idx as int + 1));
        idx = idx + 1;
    }
    proof {
        lemma_dup_prefix_total(total, n);
    }
    res
}

/// The names of the duplicates: duplicate `d` bears the name of tile `sources[d]`.
pub fn duplicate_names(names: &Vec<String>, sources: &Vec<usize>) -> (res: Vec<String>)
    requires
        forall|d: int| 0 <= d < sources.len() ==> #[trigger] sources@[d] < names.len(),
    ensures
        res.len() == sources.len(),
        forall|d: int| 0 <= d < sources.len() ==> #[trigger] res@[d]@ == names@[sources@[d] as int]@,
{
    let mut res: Vec<String> = Vec::new();
    let mut d: usize = 0;
    while d < sources.len()
        invariant
            d <= sources.len(),
            res.len() == d,
            forall|d: int| 0 <= d < sources.len() ==> #[trigger] sources@[d] < names.len(),
            forall|k: int| 0 <= k < d ==> #[trigger] res@[k]@ == names@[sources@[k] as int]@,
        decreases sources.len() - d,
    {
        res.push(names[sources[d]].clone());
        d = d + 1;
    }
    res
}

/// The column of each row (0 for a row the solver left without one).
pub open spec fn filled(raw: Seq<Option<usize>>) -> Seq<usize> {
    raw.map_values(|o: Option<usize>| match o {
        Some(t) => t,
        None => 0,
    })
}

/// The columns of the rows when the solver gave every row one, else `None`.
pub fn all_assigned(raw: &Vec<Option<usize>>) -> (res: Option<Vec<usize>>)
    ensures
        match res {
            Some(v) => (forall|b: int| 0 <= b < raw.len() ==> (#[trigger] raw@[b]) is Some) && v@
                == filled(raw@),
            None => exists|b: int| 0 <= b < raw.len() && (#[trigger] raw@[b]) is None,
        },
{
    let mut res: Vec<usize> = Vec::new();
    let mut b: usize = 0;
    while b < raw.len()
        invariant
            b <= raw.len(),
            res.len() == b,
            forall|k: int| 0 <= k < b ==> (#[trigger] raw@[k]) is Some,
            forall|k: int| 0 <= k < b ==> #[trigger] res@[k] == filled(raw@)[k],
        decreases raw.len() - b,
    {
        match raw[b] {
            Some(t) => res.push(t),
            None => {
                return None;
            },
        }
        b = b + 1;
    }
    assert(res@ =~= filled(raw@));
    Some(res)
}

/// The total cost of giving row `b` column `a[b]`, for the rows of `a`, in a
/// row-major matrix of `width` columns.
pub open spec fn assignment_cost(matrix: Seq<u32>, width: int, a: Seq<usize>) -> int
    decreases a.len(),
{
    if a.len() == 0 {
        0
    } else {
        assignment_cost(matrix, width, a.drop_last()) + matrix[(a.len() - 1) * width + a.last()] as int
    }
}

/// `a` gives each of `height` rows its own column below `width`.
pub open spec fn full_assignment(a: Seq<usize>, height: int, width: int) -> bool {
    &&& a.len() == height
    &&& forall|b: int| 0 <= b < a.len() ==> #[trigger] a[b] < width
    &&& forall|b: int, c: int| 0 <= b < c < a.len() ==> #[trigger] a[b] != #[trigger] a[c]
}

/// What `hungarian::minimize` returns for the row-major `matrix` of
/// `height` rows and `width` columns.
pub uninterp spec fn hungarian_assignment(matrix: Seq<u32>, height: nat, width: nat) -> Seq<
    Option<usize>,
>;

/// Calls `hungarian::minimize` (the Hungarian / Kuhn-Munkres algorithm) on
/// the costs widened to `u64`, one for one. Trusted: the result is named
/// `hungarian_assignment` of the arguments; it is empty when either dimension
/// is 0, and otherwise has one entry per row, each a column below `width` or
/// `None`, no column given to two rows; every row gets a column when there
/// are no more rows than columns (the crate returns once every row of the
/// smaller side holds a starred zero), some row gets none when there are more
/// rows than columns, and with no more rows than columns the total cost is
/// the least of all assignments of distinct columns, as the crate documents
/// ("finds a maximal matching such that the total cost is minimized"; its
/// documented input is a `u64` matrix). The crate's working entries are
/// costs shifted by row and column potentials, which stay within the cost of
/// one assignment, at most min(height, width) costs below 2^32 each; the size
/// bound keeps that within `u64`, so its running sums do not overflow as they
/// can on `u32` costs.
#[verifier::external_body]
fn hungarian_minimize(matrix: &[u32], height: usize, width: usize) -> (res: Vec<Option<usize>>)
    requires
        height * width <= matrix@.len(),
        height * width * 8 <= isize::MAX,
    ensures
        res@ == hungarian_assignment(matrix@, height as nat, width as nat),
        height == 0 || width == 0 ==> res.len() == 0,
        height > 0 && width > 0 ==> res.len() == height,
        forall|i: int|
            0 <= i < res.len() && (#[trigger] res@[i]) is Some ==> res@[i].unwrap() < width,
        forall|i: int, j: int|
            0 <= i < j < res.len() && (#[trigger] res@[i]) is Some && (#[trigger] res@[j]) is Some
                ==> res@[i] != res@[j],
        height <= width ==> forall|i: int| 0 <= i < res.len() ==> (#[trigger] res@[i]) is Some,
        height > width > 0 ==> exists|i: int| 0 <= i < res.len() && (#[trigger] res@[i]) is None,
        0 < height <= width ==> forall|a: Seq<usize>|
            #[trigger] full_assignment(a, height as int, width as int) ==> assignment_cost(
                matrix@,
                width as int,
                filled(res@),
            ) <= assignment_cost(matrix@, width as int, a),
{
    let wide: Vec<u64> = matrix.iter().map(|&c| c as u64).collect();
    hungarian::minimize(&wide, height, width)
}

/// What the fair mode reports when some block is left without a tile.
pub open spec fn unsolved_message() -> Seq<char> {
    "Failed to solve assignment problem"@
}

/// Matches the blocks (rows of `cost_matrix`) with the tile duplicates
/// (columns) by the exact solver, at least total cost. It fails when some
/// block is left without a duplicate, that is when there are more blocks
/// than duplicates.
pub fn solve_fair_assignment(cost_matrix: &[u32], total_blocks: usize, num_dups: usize) -> (res: Result<
    Vec<usize>,
    String,
>)
    requires
        total_blocks * num_dups <= cost_matrix@.len(),
        total_blocks * num_dups * 8 <= isize::MAX,
    ensures
        res is Ok <==> total_blocks <= num_dups,
        match res {
            Ok(a) => {
                &&& a@ == filled(hungarian_assignment(cost_matrix@, total_blocks as nat, num_dups as nat))
                &&& full_assignment(a@, total_blocks as int, num_dups as int)
                &&& forall|other: Seq<usize>|
                    #[trigger] full_assignment(other, total_blocks as int, num_dups as int)
                        ==> assignment_cost(cost_matrix@, num_dups as int, a@) <= assignment_cost(
                        cost_matrix@,
                        num_dups as int,
                        other,
                    )
            },
            Err(e) => e@ == unsolved_message(),
        },
{
    let raw = hungarian_minimize(cost_matrix, total_blocks, num_dups);
    if total_blocks > 0 && num_dups == 0 {
        return Err(String::from_str("Failed to solve assignment problem"));
    }
    match all_assigned(&raw) {
        Some(a) => {
            proof {
                if total_blocks > num_dups {
                    let i = choose|i: int| 0 <= i < raw.len() && (#[trigger] raw@[i]) is None;
                    assert(false);
                }
                assert forall|b: int| 0 <= b < a.len() implies #[trigger] a@[b] < num_dups by {
                    assert(raw@[b] is Some);
                }
                assert forall|b: int, c: int| 0 <= b < c < a.len() implies #[trigger] a@[b] != #[trigger] a@[c] by {
                    assert(raw@[b] is Some && raw@[c] is Some);
                }
                if total_blocks == 0 {
                    assert(a@.len() == 0);
                    assert forall|other: Seq<usize>|
                        #[trigger] full_assignment(other, total_blocks as int, num_dups as int) implies assignment_cost(
                        cost_matrix@,
                        num_dups as int,
                        a@,
                    ) <= assignment_cost(cost_matrix@, num_dups as int, other) by {
                        assert(other.len() == 0);
                    }
                }
            }
            Ok(a)
        },
        None => {
            proof {
                if total_blocks <= num_dups {
                    let i = choose|i: int| 0 <= i < raw.len() && (#[trigger] raw@[i]) is None;
                    assert(false);
                }
            }
            Err(String::from_str("Failed to solve assignment problem"))
        },
    }
}

proof fn lemma_occurrences_update(s: Seq<usize>, d: int, x: usize, t: int)
    requires
        0 <= d < s.len(),
        s[d] as int == t,
        x as int != t,
    ensures
        occurrences(s.update(d, x), t) + 1 == occurrences(s, t),
    decreases s.len(),
{
    let u = s.update(d, x);
    if d == s.len() - 1 {
        assert(u.drop_last() =~= s.drop_last());
    } else {
        lemma_occurrences_update(s.drop_last(), d, x, t);
        assert(u.drop_last() =~= s.drop_last().update(d, x));
    }
}

/// Blocks given distinct tile copies name each tile at most as often as it
/// has copies: with `assignment` giving distinct blocks distinct copies and
/// `sources[d]` the tile that copy `d` was made from, tile `t` is the source
/// of at most `occurrences(sources, t)` blocks.
pub proof fn lemma_distinct_copies_bound_uses(assignment: Seq<usize>, sources: Seq<usize>, t: int)
    requires
        forall|b: int| 0 <= b < assignment.len() ==> #[trigger] assignment[b] < sources.len(),
        forall|b: int, c: int|
            0 <= b < c < assignment.len() ==> #[trigger] assignment[b] != #[trigger] assignment[c],
    ensures
        occurrences(assignment.map_values(|d: usize| sources[d as int]), t) <= occurrences(sources, t),
    decreases assignment.len(),
{
    if assignment.len() > 0 {
        let a = assignment.drop_last();
        let d = assignment.last() as int;
        let mapped = assignment.map_values(|e: usize| sources[e as int]);
        assert(mapped.drop_last() =~= a.map_values(|e: usize| sources[e as int]));
        assert(assignment[assignment.len() - 1] < sources.len());
        if sources[d] as int != t {
            lemma_distinct_copies_bound_uses(a, sources, t);
        } else {
            let x: usize = if t == 0 { 1 } else { 0 };
            let s2 = sources.update(d, x);
            assert forall|b: int| 0 <= b < a.len() implies #[trigger] a[b] < s2.len() by {
                assert(a[b] == assignment[b]);
            }
            assert forall|b: int, c: int| 0 <= b < c < a.len() implies #[trigger] a[b] != #[trigger] a[c] by {
                assert(a[b] == assignment[b] && a[c] == assignment[c]);
            }
            lemma_distinct_copies_bound_uses(a, s2, t);
            assert(a.map_values(|e: usize| s2[e as int]) =~= a.map_values(|e: usize| sources[e as int])) by {
                assert forall|b: int| 0 <= b < a.len() implies a[b] as int != d by {
                    assert(a[b] == assignment[b]);
                    assert(assignment[b] != assignment[assignment.len() - 1]);
                }
            }
            lemma_occurrences_update(sources, d, x, t);
        }
    }
}

} // verus!
