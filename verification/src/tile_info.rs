//! The tile-info text: which tile file fills each block of the mosaic grid.
//!
//! The text is a header line `Grid dimension: WxH`, then one line per grid
//! row holding the file names of the row's tiles, separated by commas.

use vstd::prelude::*;
use crate::text::{
    split, trim, lines, parse_u32, chars_of, split_ranges, line_ranges, trim_bounds, parse_u32_range,
    range_texts, ranges_within, string_of, decimal, push_decimal, push_char, join, free_of, is_white_space,
    strip_cr, lemma_split_concat, lemma_split_free, lemma_split_join, lemma_join_free, lemma_trim_fixed,
    lemma_trim_leading, lemma_decimal_digits, lemma_parse_decimal, is_digit, lemma_split_nonempty,
};

verus! {

/// What `parse_grid_dimensions` gives for a header line: the width and the
/// height of `Grid dimension: WxH`, or the message of the first check that fails.
pub open spec fn grid_dimensions(line: Seq<char>) -> Result<(u32, u32), Seq<char>> {
    let parts = split(line, ':');
    if parts.len() < 2 {
        Err("Invalid grid dimension format"@)
    } else {
        let dims = split(trim(parts[1]), 'x');
        if dims.len() != 2 {
            Err("Invalid grid dimension format"@)
        } else {
            match parse_u32(trim(dims[0])) {
                None => Err("Failed to parse grid width"@),
                Some(w) => match parse_u32(trim(dims[1])) {
                    None => Err("Failed to parse grid height"@),
                    Some(h) => Ok((w, h)),
                },
            }
        }
    }
}

/// `res` is `spec`, with an error message taken by its view.
pub open spec fn result_matches<T>(res: Result<T, String>, spec: Result<T, Seq<char>>) -> bool {
    match res {
        Ok(x) => spec == Ok::<T, Seq<char>>(x),
        Err(e) => spec == Err::<T, Seq<char>>(e@),
    }
}

fn parse_grid_range(v: &Vec<char>, lo: usize, hi: usize) -> (res: Result<(u32, u32), String>)
    requires
        lo <= hi <= v.len(),
    ensures
        result_matches(res, grid_dimensions(v@.subrange(lo as int, hi as int))),
{
    let ghost line = v@.subrange(lo as int, hi as int);
    let parts = split_ranges(v, lo, hi, ':');
    if parts.len() < 2 {
        return Err(String::from_str("Invalid grid dimension format"));
    }
    let (a, b) = parts[1];
    assert(lo <= parts@[1].0 <= parts@[1].1 <= hi);
    assert(split(line, ':')[1] == v@.subrange(a as int, b as int));
    let (ta, tb) = trim_bounds(v, a, b);
    let dims = split_ranges(v, ta, tb, 'x');
    if dims.len() != 2 {
        return Err(String::from_str("Invalid grid dimension format"));
    }
    let (wa, wb) = dims[0];
    let (ha, hb) = dims[1];
    assert(ta <= dims@[0].0 <= dims@[0].1 <= tb);
    assert(ta <= dims@[1].0 <= dims@[1].1 <= tb);
    assert(split(trim(split(line, ':')[1]), 'x')[0] == v@.subrange(wa as int, wb as int));
    assert(split(trim(split(line, ':')[1]), 'x')[1] == v@.subrange(ha as int, hb as int));
    let (wa2, wb2) = trim_bounds(v, wa, wb);
    let w = match parse_u32_range(v, wa2, wb2) {
        Some(w) => w,
        None => {
            return Err(String::from_str("Failed to parse grid width"));
        },
    };
    let (ha2, hb2) = trim_bounds(v, ha, hb);
    let h = match parse_u32_range(v, ha2, hb2) {
        Some(h) => h,
        None => {
            return Err(String::from_str("Failed to parse grid height"));
        },
    };
    Ok((w, h))
}

/// Reads the grid width and height from a header line `Grid dimension: WxH`.
pub fn parse_grid_dimensions(line: &str) -> (res: Result<(u32, u32), String>)
    ensures
        result_matches(res, grid_dimensions(line@)),
{
    let v = chars_of(line);
    assert(v@.subrange(0, v.len() as int) =~= line@);
    parse_grid_range(&v, 0, v.len())
}

/// A parsed tile-info text: the grid size and, for each non-empty line after
/// the header, the trimmed comma-separated file names.
pub struct TileGrid {
    pub grid_w: u32,
    pub grid_h: u32,
    pub rows: Vec<Vec<String>>,
}

/// The rows of names as character sequences.
pub open spec fn rows_view(rows: Seq<Vec<String>>) -> Seq<Seq<Seq<char>>> {
    rows.map_values(|r: Vec<String>| r@.map_values(|s: String| s@))
}

/// The rows that the lines `ls` (those after the header) describe: every
/// non-empty line split at commas, each name trimmed.
pub open spec fn grid_rows(ls: Seq<Seq<char>>) -> Seq<Seq<Seq<char>>>
    decreases ls.len(),
{
    if ls.len() == 0 {
        seq![]
    } else {
        let r = grid_rows(ls.drop_last());
        let l = ls.last();
        if l.len() == 0 {
            r
        } else {
            r.push(split(l, ',').map_values(|p: Seq<char>| trim(p)))
        }
    }
}

/// What `parse_tile_info` gives for a text: the grid size of its first line
/// and the rows of the other lines, or the message of the first check that fails.
pub open spec fn tile_info_grid(s: Seq<char>) -> Result<(u32, u32, Seq<Seq<Seq<char>>>), Seq<char>> {
    let ls = lines(s);
    if ls.len() == 0 {
        Err("Empty tile info"@)
    } else {
        match grid_dimensions(ls[0]) {
            Err(e) => Err(e),
            Ok((w, h)) => Ok((w, h, grid_rows(ls.drop_first()))),
        }
    }
}

fn parse_row(v: &Vec<char>, a: usize, b: usize) -> (row: Vec<String>)
    requires
        a <= b <= v.len(),
    ensures
        row@.map_values(|s: String| s@) == split(v@.subrange(a as int, b as int), ',').map_values(
            |p: Seq<char>| trim(p),
        ),
{
    let ghost l = v@.subrange(a as int, b as int);
    let pieces = split_ranges(v, a, b, ',');
    let mut row: Vec<String> = Vec::new();
    let mut j: usize = 0;
    while j < pieces.len()
        invariant
            a <= b <= v.len(),
            j <= pieces.len(),
            ranges_within(pieces@, a as int, b as int),
            range_texts(v@, pieces@) == split(l, ','),
            row@.map_values(|s: String| s@) == split(l, ',').take(j as int).map_values(
                |p: Seq<char>| trim(p),
            ),
        decreases pieces.len() - j,
    {
        let (pa, pb) = pieces[j];
        assert(a <= pieces@[j as int].0 <= pieces@[j as int].1 <= b);
        assert(split(l, ',')[j as int] == v@.subrange(pa as int, pb as int));
        let (ta, tb) = trim_bounds(v, pa, pb);
        let name = string_of(v, ta, tb);
        let ghost old_row = row@;
        row.push(name);
        assert(row@.map_values(|s: String| s@) =~= split(l, ',').take(j + 1).map_values(
            |p: Seq<char>| trim(p),
        )) by {
            assert(row@.map_values(|s: String| s@) =~= old_row.map_values(|s: String| s@).push(name@));
        }
        j = j + 1;
    }
    assert(split(l, ',').take(pieces.len() as int) =~= split(l, ','));
    row
}

/// Parses a tile-info text into the grid size and the rows of file names.
pub fn parse_tile_info(tile_info: &str) -> (res: Result<TileGrid, String>)
    ensures
        match res {
            Ok(g) => tile_info_grid(tile_info@) == Ok::<(u32, u32, Seq<Seq<Seq<char>>>), Seq<char>>(
                (g.grid_w, g.grid_h, rows_view(g.rows@)),
            ),
            Err(e) => tile_info_grid(tile_info@) == Err::<(u32, u32, Seq<Seq<Seq<char>>>), Seq<char>>(
                e@,
            ),
        },
{
    let v = chars_of(tile_info);
    assert(v@.subrange(0, v.len() as int) =~= tile_info@);
    let ls = line_ranges(&v, 0, v.len());
    let ghost lsv = lines(tile_info@);
    if ls.len() == 0 {
        return Err(String::from_str("Empty tile info"));
    }
    let (a, b) = ls[0];
    assert(0 <= ls@[0].0 <= ls@[0].1 <= v.len());
    assert(lsv[0] == v@.subrange(a as int, b as int));
    let (grid_w, grid_h) = match parse_grid_range(&v, a, b) {
        Ok(p) => p,
        Err(e) => {
            return Err(e);
        },
    };
    let mut rows: Vec<Vec<String>> = Vec::new();
    let mut k: usize = 1;
    while k < ls.len()
        invariant
            1 <= k <= ls.len(),
            ranges_within(ls@, 0, v.len() as int),
            range_texts(v@, ls@) == lsv,
            rows_view(rows@) == grid_rows(lsv.subrange(1, k as int)),
        decreases ls.len() - k,
    {
        let (a, b) = ls[k];
        assert(0 <= ls@[k as int].0 <= ls@[k as int].1 <= v.len());
        assert(lsv[k as int] == v@.subrange(a as int, b as int));
        assert(lsv.subrange(1, k + 1).drop_last() =~= lsv.subrange(1, k as int));
        if a < b {
            let row = parse_row(&v, a, b);
            let ghost old_rows = rows@;
            rows.push(row);
            assert(rows_view(rows@) =~= rows_view(old_rows).push(row@.map_values(|s: String| s@)));
        }
        k = k + 1;
    }
    assert(lsv.subrange(1, ls.len() as int) =~= lsv.drop_first());
    Ok(TileGrid { grid_w, grid_h, rows })
}

/// The names as character sequences.
pub open spec fn names_view(names: Seq<String>) -> Seq<Seq<char>> {
    names.map_values(|s: String| s@)
}

/// The name written for tile `t`: its file name, or `unknown` when there is none.
pub open spec fn tile_name(names: Seq<Seq<char>>, t: int) -> Seq<char> {
    if 0 <= t < names.len() {
        names[t]
    } else {
        "unknown"@
    }
}

/// `s` cut into consecutive pieces of `n` entries, the last one possibly shorter.
pub open spec fn chunks(s: Seq<usize>, n: nat) -> Seq<Seq<usize>>
    decreases s.len(),
{
    if s.len() == 0 || n == 0 {
        seq![]
    } else if s.len() <= n {
        seq![s]
    } else {
        seq![s.take(n as int)] + chunks(s.skip(n as int), n)
    }
}

/// The line of one grid row: its tile names separated by commas, with one
/// more comma after a row that is shorter than the grid width.
pub open spec fn row_text(row: Seq<usize>, names: Seq<Seq<char>>, gw: nat) -> Seq<char> {
    join(row.map_values(|t: usize| tile_name(names, t as int)), ',') + if row.len() < gw {
        seq![',']
    } else {
        seq![]
    }
}

/// The header line `Grid dimension: WxH` with its line feed.
pub open spec fn header_text(w: u32, h: u32) -> Seq<char> {
    "Grid dimension: "@ + decimal(w as nat) + seq!['x'] + decimal(h as nat) + seq!['\n']
}

/// The tile-info text of an assignment of tiles to the blocks of a grid
/// `gw` blocks wide, in row-major order.
pub open spec fn tile_info_text(gw: u32, gh: u32, assignment: Seq<usize>, names: Seq<Seq<char>>) -> Seq<
    char,
> {
    header_text(gw, gh) + join(
        chunks(assignment, gw as nat).map_values(|row: Seq<usize>| row_text(row, names, gw as nat)),
        '\n',
    )
}

fn push_tile_name(out: &mut String, names: &Vec<String>, t: usize)
    ensures
        final(out)@ == old(out)@ + tile_name(names_view(names@), t as int),
{
    if t < names.len() {
        out.append(names[t].as_str());
    } else {
        out.append("unknown");
    }
}

/// Writes the tile-info text of `assignment` (block `i` is in row
/// `i / grid_w`, column `i % grid_w`), naming tile `t` by `names[t]`.
pub fn build_tile_info(grid_w: u32, grid_h: u32, assignment: &Vec<usize>, names: &Vec<String>) -> (info:
    String)
    requires
        grid_w > 0,
    ensures
        info@ == tile_info_text(grid_w, grid_h, assignment@, names_view(names@)),
{
    let ghost nv = names_view(names@);
    let ghost gwn = grid_w as nat;
    let ghost a = assignment@;
    let mut out = String::new();
    out.append("Grid dimension: ");
    push_decimal(&mut out, grid_w);
    push_char(&mut out, 'x');
    push_decimal(&mut out, grid_h);
    push_char(&mut out, '\n');
    let ghost header = out@;
    assert(header == header_text(grid_w, grid_h));
    let gw = grid_w as usize;
    let len = assignment.len();
    let ghost mut done: Seq<Seq<usize>> = seq![];
    let mut start: usize = 0;
    assert(a.skip(0) =~= a);
    assert(done + chunks(a.skip(0), gwn) =~= chunks(a, gwn));
    assert(done.map_values(|row: Seq<usize>| row_text(row, nv, gwn)) =~= Seq::<Seq<char>>::empty());
    while start < len
        invariant
            gw == grid_w,
            gwn == gw,
            gw > 0,
            len == assignment.len(),
            a == assignment@,
            nv == names_view(names@),
            start <= len,
            (start == 0) == (done.len() == 0),
            chunks(a, gwn) == done + chunks(a.skip(start as int), gwn),
            out@ == header + join(done.map_values(|row: Seq<usize>| row_text(row, nv, gwn)), '\n'),
        decreases len - start,
    {
        let end = if len - start <= gw {
            len
        } else {
            start + gw
        };
        let ghost rest = a.skip(start as int);
        let ghost row = a.subrange(start as int, end as int);
        proof {
            if len - start <= gw {
                assert(rest =~= row);
                assert(rest.skip(gw as int).len() == 0 || rest.len() <= gwn);
                assert(chunks(rest, gwn) == seq![row]);
                assert(a.skip(end as int).len() == 0);
                assert(chunks(a.skip(end as int), gwn) =~= Seq::<Seq<usize>>::empty());
            } else {
                assert(rest.take(gw as int) =~= row);
                assert(rest.skip(gw as int) =~= a.skip(end as int));
            }
            assert(chunks(rest, gwn) == seq![row] + chunks(a.skip(end as int), gwn));
        }
        let ghost before_row = out@;
        if start > 0 {
            push_char(&mut out, '\n');
        }
        let ghost row_start = out@;
        let mut c = start;
        while c < end
            invariant
                start < end <= len,
                len == assignment.len(),
                a == assignment@,
                nv == names_view(names@),
                row == a.subrange(start as int, end as int),
                start <= c <= end,
                c == start ==> out@ == row_start,
                c > start ==> out@ == row_start + join(
                    row.take(c - start).map_values(|t: usize| tile_name(nv, t as int)),
                    ',',
                ),
            decreases end - c,
        {
            let ghost prev = out@;
            if c > start {
                push_char(&mut out, ',');
            }
            push_tile_name(&mut out, names, assignment[c]);
            proof {
                let parts = row.take(c + 1 - start).map_values(|t: usize| tile_name(nv, t as int));
                assert(parts.drop_last() =~= row.take(c - start).map_values(
                    |t: usize| tile_name(nv, t as int),
                ));
                assert(parts.last() == tile_name(nv, assignment@[c as int] as int));
                if c == start {
                    assert(parts.len() == 1);
                }
            }
            c = c + 1;
        }
        assert(row.take(end - start) =~= row);
        assert(out@ == row_start + join(row.map_values(|t: usize| tile_name(nv, t as int)), ','));
        if end - start < gw {
            push_char(&mut out, ',');
        }
        proof {
            let rt = |r: Seq<usize>| row_text(r, nv, gwn);
            assert(row.len() == end - start);
            assert(out@ =~= row_start + rt(row));
            let old_done = done;
            done = done.push(row);
            assert(done.map_values(rt) =~= old_done.map_values(rt).push(rt(row)));
            let dm = done.map_values(rt);
            assert(dm.drop_last() =~= old_done.map_values(rt));
            if start > 0 {
                assert(join(dm, '\n') == join(old_done.map_values(rt), '\n').push('\n') + rt(row));
                assert(out@ =~= header + join(dm, '\n'));
            } else {
                assert(dm.len() == 1);
                assert(out@ =~= header + join(dm, '\n'));
            }
            assert(chunks(a, gwn) =~= done + chunks(a.skip(end as int), gwn));
        }
        start = end;
    }
    proof {
        assert(a.skip(start as int).len() == 0);
        assert(chunks(a, gwn) =~= done);
    }
    out
}

/// A name that the tile-info text carries unchanged: not empty, without
/// commas or line feeds, and without white space at either end.
pub open spec fn is_plain_name(n: Seq<char>) -> bool {
    &&& n.len() > 0
    &&& free_of(n, ',')
    &&& free_of(n, '\n')
    &&& !is_white_space(n[0])
    &&& !is_white_space(n.last())
}

/// The names of the tiles of each grid row.
pub open spec fn named_rows(assignment: Seq<usize>, names: Seq<Seq<char>>, gw: nat) -> Seq<
    Seq<Seq<char>>,
> {
    chunks(assignment, gw).map_values(
        |row: Seq<usize>| row.map_values(|t: usize| tile_name(names, t as int)),
    )
}

proof fn lemma_chunks_full(a: Seq<usize>, n: nat)
    requires
        n > 0,
        a.len() % n == 0,
    ensures
        forall|i: int| 0 <= i < chunks(a, n).len() ==> (#[trigger] chunks(a, n)[i]).len() == n,
    decreases a.len(),
{
    if a.len() > 0 {
        if a.len() <= n {
            assert(a.len() == n) by {
                vstd::arithmetic::div_mod::lemma_fundamental_div_mod(a.len() as int, n as int);
                if a.len() < n {
                    vstd::arithmetic::div_mod::lemma_small_mod(a.len() as nat, n);
                }
            }
        } else {
            vstd::arithmetic::div_mod::lemma_mod_sub_multiples_vanish(a.len() as int, n as int);
            lemma_chunks_full(a.skip(n as int), n);
            let c = chunks(a, n);
            assert forall|i: int| 0 <= i < c.len() implies (#[trigger] c[i]).len() == n by {
                if i > 0 {
                    assert(c[i] == chunks(a.skip(n as int), n)[i - 1]);
                }
            }
        }
    }
}

proof fn lemma_grid_rows_nonempty(ls: Seq<Seq<char>>)
    requires
        forall|i: int| 0 <= i < ls.len() ==> (#[trigger] ls[i]).len() > 0,
    ensures
        grid_rows(ls) == ls.map_values(|l: Seq<char>| split(l, ',').map_values(|p: Seq<char>| trim(p))),
    decreases ls.len(),
{
    if ls.len() > 0 {
        let p = ls.drop_last();
        assert forall|i: int| 0 <= i < p.len() implies (#[trigger] p[i]).len() > 0 by {
            assert(p[i] == ls[i]);
        }
        lemma_grid_rows_nonempty(p);
        assert(ls[ls.len() - 1].len() > 0);
        assert(ls.map_values(|l: Seq<char>| split(l, ',').map_values(|p: Seq<char>| trim(p)))
            =~= p.map_values(|l: Seq<char>| split(l, ',').map_values(|p: Seq<char>| trim(p))).push(
            split(ls.last(), ',').map_values(|p: Seq<char>| trim(p)),
        ));
    }
}

/// The header line `Grid dimension: WxH`, without its line feed.
pub open spec fn header_line(w: u32, h: u32) -> Seq<char> {
    "Grid dimension: "@ + decimal(w as nat) + seq!['x'] + decimal(h as nat)
}

/// Reading the grid size back from the header line that the tile-info text
/// starts with gives the width and height it was written with, for every
/// width and height.
pub proof fn lemma_header_round_trip(w: u32, h: u32)
    ensures
        grid_dimensions(header_line(w, h)) == Ok::<(u32, u32), Seq<char>>((w, h)),
        header_text(w, h) == header_line(w, h) + seq!['\n'],
{
    lemma_header_dimensions(w, h);
}

proof fn lemma_header_dimensions(w: u32, h: u32)
    ensures
        grid_dimensions("Grid dimension: "@ + decimal(w as nat) + seq!['x'] + decimal(h as nat)) == Ok::<
            (u32, u32),
            Seq<char>,
        >((w, h)),
        free_of("Grid dimension: "@ + decimal(w as nat) + seq!['x'] + decimal(h as nat), '\n'),
        ("Grid dimension: "@ + decimal(w as nat) + seq!['x'] + decimal(h as nat)).len() > 0,
        !is_white_space(("Grid dimension: "@ + decimal(w as nat) + seq!['x'] + decimal(h as nat)).last()),
{
    reveal_strlit("Grid dimension: ");
    let dw = decimal(w as nat);
    let dh = decimal(h as nat);
    lemma_decimal_digits(w as nat);
    lemma_decimal_digits(h as nat);
    let g = seq!['G', 'r', 'i', 'd', ' ', 'd', 'i', 'm', 'e', 'n', 's', 'i', 'o', 'n'];
    assert("Grid dimension: "@ =~= g + seq![':'] + seq![' ']);
    let rest = seq![' '] + dw + seq!['x'] + dh;
    let line = "Grid dimension: "@ + dw + seq!['x'] + dh;
    assert(line =~= g + seq![':'] + rest);
    assert(free_of(g, ':'));
    assert(free_of(rest, ':')) by {
        assert forall|i: int| 0 <= i < rest.len() implies rest[i] != ':' by {
            if 1 <= i < 1 + dw.len() {
                assert(is_digit(dw[i - 1]));
            } else if i > 1 + dw.len() {
                assert(is_digit(dh[i - 2 - dw.len()]));
            }
        }
    }
    lemma_split_concat(g, rest, ':');
    lemma_split_free(g, ':');
    lemma_split_free(rest, ':');
    assert(split(line, ':') =~= seq![g, rest]);
    let dims = dw + seq!['x'] + dh;
    assert(rest =~= seq![' '] + dims);
    lemma_trim_leading(' ', dims);
    assert(is_digit(dw[0]));
    assert(is_digit(dh[dh.len() - 1]));
    assert(dims[0] == dw[0]);
    assert(dims.last() == dh.last());
    lemma_trim_fixed(dims);
    assert(free_of(dw, 'x')) by {
        assert forall|i: int| 0 <= i < dw.len() implies dw[i] != 'x' by {
            assert(is_digit(dw[i]));
        }
    }
    assert(free_of(dh, 'x')) by {
        assert forall|i: int| 0 <= i < dh.len() implies dh[i] != 'x' by {
            assert(is_digit(dh[i]));
        }
    }
    lemma_split_concat(dw, dh, 'x');
    lemma_split_free(dw, 'x');
    lemma_split_free(dh, 'x');
    assert(split(dims, 'x') =~= seq![dw, dh]);
    lemma_trim_fixed(dw);
    lemma_trim_fixed(dh);
    lemma_parse_decimal(w);
    lemma_parse_decimal(h);
    assert(free_of(line, '\n')) by {
        assert forall|i: int| 0 <= i < line.len() implies line[i] != '\n' by {
            if 16 <= i < 16 + dw.len() {
                assert(is_digit(dw[i - 16]));
            } else if i > 16 + dw.len() {
                assert(is_digit(dh[i - 17 - dw.len()]));
            }
        }
    }
    assert(line.last() == dh.last());
}

/// Reading back the tile-info text of an assignment gives the grid size and
/// the names of the tiles of each row, for a grid of whole rows whose tile
/// names are plain.
pub proof fn lemma_tile_info_round_trip(
    gw: u32,
    gh: u32,
    assignment: Seq<usize>,
    names: Seq<Seq<char>>,
)
    requires
        gw > 0,
        assignment.len() % (gw as nat) == 0,
        forall|i: int| 0 <= i < names.len() ==> is_plain_name(#[trigger] names[i]),
    ensures
        tile_info_grid(tile_info_text(gw, gh, assignment, names)) == Ok::<
            (u32, u32, Seq<Seq<Seq<char>>>),
            Seq<char>,
        >((gw, gh, named_rows(assignment, names, gw as nat))),
{
    let gwn = gw as nat;
    let h0 = "Grid dimension: "@ + decimal(gw as nat) + seq!['x'] + decimal(gh as nat);
    lemma_header_dimensions(gw, gh);
    let rows = chunks(assignment, gwn);
    let rt = rows.map_values(|row: Seq<usize>| row_text(row, names, gwn));
    let nr = named_rows(assignment, names, gwn);
    let body = join(rt, '\n');
    let text = tile_info_text(gw, gh, assignment, names);
    assert(text =~= h0 + seq!['\n'] + body);
    lemma_split_concat(h0, body, '\n');
    lemma_split_free(h0, '\n');
    lemma_chunks_full(assignment, gwn);
    reveal_strlit("unknown");
    assert forall|i: int, t: int| 0 <= i < rows.len() && 0 <= t < rows[i].len() implies is_plain_name(
        #[trigger] nr[i][t],
    ) by {
        assert(nr[i][t] == tile_name(names, rows[i][t] as int));
        if !(0 <= rows[i][t] < names.len()) {
            assert("unknown"@ =~= seq!['u', 'n', 'k', 'n', 'o', 'w', 'n']);
        }
    }
    // each row line is its names joined with commas
    assert forall|i: int| 0 <= i < rows.len() implies {
        &&& #[trigger] rt[i] == join(nr[i], ',')
        &&& free_of(rt[i], '\n')
        &&& rt[i].len() > 0
        &&& strip_cr(rt[i]) == rt[i]
        &&& split(rt[i], ',').map_values(|p: Seq<char>| trim(p)) == nr[i]
    } by {
        assert(rows[i].len() == gwn);
        assert(rt[i] =~= join(nr[i], ','));
        assert forall|t: int| 0 <= t < nr[i].len() implies free_of(#[trigger] nr[i][t], '\n') by {
            assert(is_plain_name(nr[i][t]));
        }
        lemma_join_free(nr[i], ',', '\n');
        assert forall|t: int| 0 <= t < nr[i].len() implies free_of(#[trigger] nr[i][t], ',') by {
            assert(is_plain_name(nr[i][t]));
        }
        assert(nr[i].len() == gwn);
        assert(is_plain_name(nr[i][nr[i].len() - 1]));
        lemma_split_join(nr[i], ',');
        assert forall|t: int| 0 <= t < nr[i].len() implies trim(#[trigger] nr[i][t]) == nr[i][t] by {
            assert(is_plain_name(nr[i][t]));
            lemma_trim_fixed(nr[i][t]);
        }
        assert(split(rt[i], ',').map_values(|p: Seq<char>| trim(p)) =~= nr[i]);
    }
    let ls = lines(text);
    if rows.len() == 0 {
        assert(body =~= Seq::<char>::empty());
        lemma_split_free(body, '\n');
        assert(split(text, '\n') =~= seq![h0, body]);
        assert(ls =~= seq![h0]);
        assert(ls.drop_first() =~= Seq::<Seq<char>>::empty());
        assert(nr =~= Seq::<Seq<Seq<char>>>::empty());
    } else {
        assert forall|i: int| 0 <= i < rt.len() implies free_of(#[trigger] rt[i], '\n') by {}
        lemma_split_join(rt, '\n');
        let p = split(text, '\n');
        assert(p =~= seq![h0] + rt);
        assert(ls =~= seq![h0] + rt) by {
            assert(p.take(p.len() - 1).map_values(|l: Seq<char>| strip_cr(l)) =~= seq![h0] + rt.drop_last());
            assert(p[p.len() - 1] == rt[rt.len() - 1]);
        }
        assert(ls.drop_first() =~= rt);
        assert forall|i: int| 0 <= i < rt.len() implies (#[trigger] rt[i]).len() > 0 by {}
        lemma_grid_rows_nonempty(rt);
        assert(grid_rows(rt) =~= nr);
    }
}

} // verus!
