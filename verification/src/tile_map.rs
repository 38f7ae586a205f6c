//! The data of the interactive tile map: where each tile file was placed, and
//! the distinct file names in order.

use vstd::prelude::*;
use crate::order::{lex_lt, text_less, lemma_lex_total, lemma_lex_transitive};
use crate::tile_info::rows_view;

verus! {

/// A tile file placed in row `row`, column `col` of the grid.
pub struct TilePlacement {
    pub row: usize,
    pub col: usize,
    pub file: String,
}

/// All names of the rows, row after row.
pub open spec fn flat_names(rows: Seq<Seq<Seq<char>>>) -> Seq<Seq<char>>
    decreases rows.len(),
{
    if rows.len() == 0 {
        seq![]
    } else {
        flat_names(rows.drop_last()) + rows.last()
    }
}

/// Each name of the rows with its row and column, row after row.
pub open spec fn placements(rows: Seq<Seq<Seq<char>>>) -> Seq<(int, int, Seq<char>)>
    decreases rows.len(),
{
    if rows.len() == 0 {
        seq![]
    } else {
        placements(rows.drop_last()) + rows.last().map(
            |c: int, name: Seq<char>| (rows.len() - 1, c, name),
        )
    }
}

/// The placements as plain values.
pub open spec fn placements_view(p: Seq<TilePlacement>) -> Seq<(int, int, Seq<char>)> {
    p.map_values(|t: TilePlacement| (t.row as int, t.col as int, t.file@))
}

/// Every name of the grid with its row and column, in row-major order.
pub fn tile_layout(rows: &Vec<Vec<String>>) -> (r: Vec<TilePlacement>)
    ensures
        placements_view(r@) == placements(rows_view(rows@)),
{
    let ghost rv = rows_view(rows@);
    let mut out: Vec<TilePlacement> = Vec::new();
    let mut i: usize = 0;
    while i < rows.len()
        invariant
            i <= rows.len(),
            rv == rows_view(rows@),
            placements_view(out@) == placements(rv.take(i as int)),
        decreases rows.len() - i,
    {
        let row = &rows[i];
        let ghost base = out@;
        let mut j: usize = 0;
        while j < row.len()
            invariant
                i < rows.len(),
                row == rows@[i as int],
                rv == rows_view(rows@),
                j <= row.len(),
                placements_view(base) == placements(rv.take(i as int)),
                out@.len() == base.len() + j,
                out@.take(base.len() as int) == base,
                forall|q: int| #![trigger out@[q]] base.len() <= q < out@.len() ==> out@[q].row == i && out@[q].col == q - base.len()
                    && out@[q].file@ == row@[q - base.len()]@,
            decreases row.len() - j,
        {
            out.push(TilePlacement { row: i, col: j, file: row[j].clone() });
            assert(out@.take(base.len() as int) =~= base);
            j = j + 1;
        }
        proof {
            let rows_i = rv.take(i + 1);
            assert(rows_i.drop_last() =~= rv.take(i as int));
            assert(rows_i.last() == rv[i as int]);
            assert(rv[i as int] == row@.map_values(|s: String| s@));
            assert(placements_view(out@) =~= placements_view(base) + rv[i as int].map(
                |c: int, name: Seq<char>| (i as int, c, name),
            )) by {
                assert forall|k: int| 0 <= k < out@.len() implies #[trigger] placements_view(out@)[k] == (
                placements_view(base) + rv[i as int].map(|c: int, name: Seq<char>| (i as int, c, name)))[k] by {
                    if k < base.len() {
                        assert(out@[k] == out@.take(base.len() as int)[k]);
                    } else {
                        assert(out@[k].col == k - base.len());
                    }
                }
            }
        }
        i = i + 1;
    }
    assert(rv.take(rows.len() as int) =~= rv);
    out
}

/// The entries of `s` are in strictly increasing order.
pub open spec fn strictly_sorted(s: Seq<Seq<char>>) -> bool {
    forall|i: int, j: int| 0 <= i < j < s.len() ==> lex_lt(#[trigger] s[i], #[trigger] s[j])
}

/// `s` and `t` hold the same names.
pub open spec fn same_names(s: Seq<Seq<char>>, t: Seq<Seq<char>>) -> bool {
    &&& forall|i: int| 0 <= i < s.len() ==> t.contains(#[trigger] s[i])
    &&& forall|k: int| 0 <= k < t.len() ==> s.contains(#[trigger] t[k])
}

/// The distinct names as plain values.
pub open spec fn strings_view(s: Seq<String>) -> Seq<Seq<char>> {
    s.map_values(|x: String| x@)
}

/// Adds `name` to the strictly sorted `out`, unless it is there already.
fn insert_sorted(out: &mut Vec<String>, name: &String)
    requires
        strictly_sorted(strings_view(old(out)@)),
    ensures
        strictly_sorted(strings_view(final(out)@)),
        same_names(strings_view(final(out)@), strings_view(old(out)@).push(name@)),
{
    let ghost s0 = strings_view(out@);
    let mut i: usize = 0;
    while i < out.len() && text_less(&out[i], name)
        invariant
            i <= out.len(),
            s0 == strings_view(out@),
            forall|k: int| 0 <= k < i ==> lex_lt(#[trigger] s0[k], name@),
        decreases out.len() - i,
    {
        i = i + 1;
    }
    if i < out.len() && out[i] == *name {
        proof {
            let t = s0.push(name@);
            assert forall|k: int| 0 <= k < t.len() implies s0.contains(#[trigger] t[k]) by {
                if k == s0.len() {
                    assert(s0[i as int] == name@);
                }
            }
            assert forall|k: int| 0 <= k < s0.len() implies t.contains(#[trigger] s0[k]) by {
                assert(t[k] == s0[k]);
            }
        }
        return;
    }
    proof {
        if i < out.len() {
            lemma_lex_total(s0[i as int], name@);
        }
    }
    out.insert(i, name.clone());
    proof {
        let s1 = strings_view(out@);
        assert(s1 =~= s0.take(i as int).push(name@) + s0.skip(i as int));
        assert forall|a: int, b: int| 0 <= a < b < s1.len() implies lex_lt(#[trigger] s1[a], #[trigger] s1[b]) by {
            if b < i {
                assert(s1[a] == s0[a] && s1[b] == s0[b]);
            } else if b == i {
                assert(s1[a] == s0[a]);
            } else if a == i {
                assert(s1[b] == s0[b - 1]);
                if b - 1 > i {
                    lemma_lex_transitive(name@, s0[i as int], s0[b - 1]);
                }
            } else if a < i {
                assert(s1[a] == s0[a] && s1[b] == s0[b - 1]);
            } else {
                assert(s1[a] == s0[a - 1] && s1[b] == s0[b - 1]);
            }
        }
        let t = s0.push(name@);
        assert forall|k: int| 0 <= k < t.len() implies s1.contains(#[trigger] t[k]) by {
            if k == s0.len() {
                assert(s1[i as int] == name@);
            } else if k < i {
                assert(s1[k] == s0[k]);
            } else {
                assert(s1[k + 1] == s0[k]);
            }
        }
        assert forall|k: int| 0 <= k < s1.len() implies t.contains(#[trigger] s1[k]) by {
            if k < i {
                assert(t[k] == s1[k]);
            } else if k == i {
                assert(t[s0.len() as int] == s1[k]);
            } else {
                assert(t[k - 1] == s1[k]);
            }
        }
    }
}

/// The distinct names of the rows, in increasing order.
pub fn sorted_unique_names(rows: &Vec<Vec<String>>) -> (r: Vec<String>)
    ensures
        strictly_sorted(strings_view(r@)),
        same_names(strings_view(r@), flat_names(rows_view(rows@))),
{
    let ghost rv = rows_view(rows@);
    let mut out: Vec<String> = Vec::new();
    let mut i: usize = 0;
    while i < rows.len()
        invariant
            i <= rows.len(),
            rv == rows_view(rows@),
            strictly_sorted(strings_view(out@)),
            same_names(strings_view(out@), flat_names(rv.take(i as int))),
        decreases rows.len() - i,
    {
        let row = &rows[i];
        let mut j: usize = 0;
        while j < row.len()
            invariant
                i < rows.len(),
                row == rows@[i as int],
                rv == rows_view(rows@),
                j <= row.len(),
                strictly_sorted(strings_view(out@)),
                same_names(strings_view(out@), flat_names(rv.take(i as int)) + rv[i as int].take(j as int)),
            decreases row.len() - j,
        {
            let ghost before = strings_view(out@);
            insert_sorted(&mut out, &row[j]);
            proof {
                let f = flat_names(rv.take(i as int));
                let old_t = f + rv[i as int].take(j as int);
                let new_t = f + rv[i as int].take(j + 1);
                assert(rv[i as int][j as int] == row@[j as int]@);
                assert(new_t =~= old_t.push(row@[j as int]@));
                let s1 = strings_view(out@);
                let u = before.push(row@[j as int]@);
                assert forall|k: int| 0 <= k < s1.len() implies new_t.contains(#[trigger] s1[k]) by {
                    assert(u.contains(s1[k]));
                    let m = choose|m: int| 0 <= m < u.len() && u[m] == s1[k];
                    if m < before.len() {
                        assert(old_t.contains(before[m]));
                        let q = choose|q: int| 0 <= q < old_t.len() && old_t[q] == before[m];
                        assert(new_t[q] == old_t[q]);
                    } else {
                        assert(new_t[old_t.len() as int] == s1[k]);
                    }
                }
                assert forall|k: int| 0 <= k < new_t.len() implies s1.contains(#[trigger] new_t[k]) by {
                    if k < old_t.len() {
                        assert(new_t[k] == old_t[k]);
                        assert(before.contains(old_t[k]));
                        let m = choose|m: int| 0 <= m < before.len() && before[m] == old_t[k];
                        assert(u[m] == before[m]);
                    } else {
                        assert(u[before.len() as int] == new_t[k]);
                    }
                }
            }
            j = j + 1;
        }
        proof {
            assert(rv.take(i + 1).drop_last() =~= rv.take(i as int));
            assert(rv[i as int].take(row.len() as int) =~= rv[i as int]);
            assert(rv.take(i + 1).last() == rv[i as int]);
        }
        i = i + 1;
    }
    assert(rv.take(rows.len() as int) =~= rv);
    out
}

} // verus!
