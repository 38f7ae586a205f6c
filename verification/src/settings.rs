//! Option checks and small settings of the command line tool.

use vstd::prelude::*;
use crate::Colorspace;
use crate::text::chars_of;
use crate::raster::Raster;

verus! {

/// The name under which features of a color space are cached.
pub open spec fn colorspace_key(c: Colorspace) -> Seq<char> {
    match c {
        Colorspace::Bgr => "bgr"@,
        Colorspace::Lab => "lab"@,
        Colorspace::Hsv => "hsv"@,
        Colorspace::Hsl => "hsl"@,
        Colorspace::Luv => "luv"@,
    }
}

/// The lower-case name of a color space.
pub fn colorspace_name(c: Colorspace) -> (s: String)
    ensures
        s@ == colorspace_key(c),
{
    match c {
        Colorspace::Bgr => String::from_str("bgr"),
        Colorspace::Lab => String::from_str("lab"),
        Colorspace::Hsv => String::from_str("hsv"),
        Colorspace::Hsl => String::from_str("hsl"),
        Colorspace::Luv => String::from_str("luv"),
    }
}

/// The number of worker threads when none is given: half the processors, at least one.
pub fn default_thread_count(cpus: usize) -> (n: usize)
    ensures
        n == if cpus / 2 >= 1 {
            cpus / 2
        } else {
            1
        },
{
    let half = cpus / 2;
    if half >= 1 {
        half
    } else {
        1
    }
}

/// `c` with an upper-case ASCII letter made lower case.
pub open spec fn ascii_lower(c: char) -> char {
    if 'A' <= c && c <= 'Z' {
        (((c as u32) + 32) as u8) as char
    } else {
        c
    }
}

/// The image file extensions that tiles are loaded from: JPEG, PNG, GIF,
/// BMP, WebP and TIFF files.
pub open spec fn supported_extensions() -> Seq<Seq<char>> {
    seq!["jpg"@, "jpeg"@, "png"@, "gif"@, "bmp"@, "webp"@, "tiff"@, "tif"@]
}

/// Whether a file extension names a supported image format, in any letter
/// case. (Lower-casing leaves a non-ASCII character outside ASCII, except the
/// Kelvin sign, which becomes `k`, a letter no supported extension holds.)
pub open spec fn supported_extension(ext: Seq<char>) -> bool {
    supported_extensions().contains(ext.map_values(|c: char| ascii_lower(c)))
}

fn lower_char(c: char) -> (r: char)
    ensures
        r == ascii_lower(c),
{
    if 'A' <= c && c <= 'Z' {
        let u = (c as u32 + 32) as u8;
        u as char
    } else {
        c
    }
}

/// Whether `ext` is the extension of a supported image file.
pub fn is_supported_extension(ext: &str) -> (b: bool)
    ensures
        b == supported_extension(ext@),
{
    let v = chars_of(ext);
    let mut lower: Vec<char> = Vec::new();
    let mut i: usize = 0;
    while i < v.len()
        invariant
            i <= v.len(),
            v@ == ext@,
            lower@ == ext@.take(i as int).map_values(|c: char| ascii_lower(c)),
        decreases v.len() - i,
    {
        lower.push(lower_char(v[i]));
        assert(ext@.take(i + 1).map_values(|c: char| ascii_lower(c)) =~= ext@.take(i as int).map_values(
            |c: char| ascii_lower(c),
        ).push(ascii_lower(ext@[i as int])));
        i = i + 1;
    }
    assert(ext@.take(v.len() as int) =~= ext@);
    let ghost l = lower@;
    proof {
        reveal_strlit("jpg");
        reveal_strlit("jpeg");
        reveal_strlit("png");
        reveal_strlit("gif");
        reveal_strlit("bmp");
        reveal_strlit("webp");
        reveal_strlit("tiff");
        reveal_strlit("tif");
    }
    let found = matches_text(&lower, "jpg") || matches_text(&lower, "jpeg") || matches_text(&lower, "png")
        || matches_text(&lower, "gif") || matches_text(&lower, "bmp") || matches_text(&lower, "webp")
        || matches_text(&lower, "tiff") || matches_text(&lower, "tif");
    proof {
        let s = supported_extensions();
        if found {
            if l == "jpg"@ {
                assert(s[0] == l);
            } else if l == "jpeg"@ {
                assert(s[1] == l);
            } else if l == "png"@ {
                assert(s[2] == l);
            } else if l == "gif"@ {
                assert(s[3] == l);
            } else if l == "bmp"@ {
                assert(s[4] == l);
            } else if l == "webp"@ {
                assert(s[5] == l);
            } else if l == "tiff"@ {
                assert(s[6] == l);
            } else {
                assert(s[7] == l);
            }
        } else {
            assert forall|k: int| 0 <= k < s.len() implies s[k] != l by {}
        }
    }
    found
}

fn matches_text(v: &Vec<char>, t: &str) -> (b: bool)
    ensures
        b == (v@ == t@),
{
    let w = chars_of(t);
    if v.len() != w.len() {
        return false;
    }
    let mut i: usize = 0;
    while i < v.len()
        invariant
            i <= v.len(),
            v.len() == w.len(),
            w@ == t@,
            forall|k: int| 0 <= k < i ==> v@[k] == w@[k],
        decreases v.len() - i,
    {
        if v[i] != w[i] {
            return false;
        }
        i = i + 1;
    }
    assert(v@ =~= w@);
    true
}

/// What the command line accepts of the integer options: one or two tile
/// sizes, and an auto-rotation of -1, 0 or 1.
pub open spec fn options_check(size_count: nat, auto_rotate: i8) -> Result<(), Seq<char>> {
    if size_count == 0 || size_count > 2 {
        Err("Error: --size must be 1 or 2 values"@)
    } else if auto_rotate != -1 && auto_rotate != 0 && auto_rotate != 1 {
        Err("Error: --auto_rotate must be -1, 0, or 1"@)
    } else {
        Ok(())
    }
}

/// Checks the number of tile sizes and the auto-rotation option.
pub fn check_options(size_count: usize, auto_rotate: i8) -> (r: Result<(), String>)
    ensures
        match r {
            Ok(()) => options_check(size_count as nat, auto_rotate) == Ok::<(), Seq<char>>(()),
            Err(e) => options_check(size_count as nat, auto_rotate) == Err::<(), Seq<char>>(e@),
        },
{
    if size_count == 0 || size_count > 2 {
        return Err(String::from_str("Error: --size must be 1 or 2 values"));
    }
    if auto_rotate != -1 && auto_rotate != 0 && auto_rotate != 1 {
        return Err(String::from_str("Error: --auto_rotate must be -1, 0, or 1"));
    }
    Ok(())
}

/// Fair-mode problems (blocks times duplicates) above this size get a warning.
pub const FAIR_WARN_SIZE: usize = 5_000_000;

/// Whether a fair-mode problem of this size gets the warning.
pub fn fair_problem_too_large(problem_size: usize) -> (b: bool)
    ensures
        b == (problem_size > FAIR_WARN_SIZE),
{
    problem_size > FAIR_WARN_SIZE
}

/// The solving time that the warning estimates for a fair-mode problem.
pub open spec fn solving_time_estimate(problem_size: nat) -> Seq<char> {
    if problem_size > 100_000_000 {
        "12+ hours"@
    } else if problem_size > 50_000_000 {
        "2-12 hours"@
    } else {
        "30+ minutes"@
    }
}

/// The estimated solving time of a fair-mode problem, in words.
pub fn estimated_solving_time(problem_size: usize) -> (s: String)
    ensures
        s@ == solving_time_estimate(problem_size as nat),
{
    if problem_size > 100_000_000 {
        String::from_str("12+ hours")
    } else if problem_size > 50_000_000 {
        String::from_str("2-12 hours")
    } else {
        String::from_str("30+ minutes")
    }
}

/// A loaded set of tiles: the images, all of one size, and the file name of each.
pub struct TileSet {
    pub tiles: Vec<Raster>,
    pub names: Vec<String>,
}

impl TileSet {
    /// The number of tiles.
    pub fn len(&self) -> (n: usize)
        ensures
            n == self.tiles@.len(),
    {
        self.tiles.len()
    }

    /// Whether there are no tiles.
    pub fn is_empty(&self) -> (b: bool)
        ensures
            b == (self.tiles@.len() == 0),
    {
        self.tiles.len() == 0
    }
}

} // verus!
