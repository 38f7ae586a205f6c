//! Character-level text helpers: whitespace trimming, splitting at a
//! separator, splitting into lines, and decimal numbers, each with the
//! meaning that std's `str` methods of the same name have.

use vstd::prelude::*;

verus! {

/// The characters that have the Unicode `White_Space` property
/// (what `char::is_whitespace` accepts).
pub open spec fn is_white_space(c: char) -> bool {
    let u = c as u32;
    ||| 0x09 <= u <= 0x0D
    ||| u == 0x20
    ||| u == 0x85
    ||| u == 0xA0
    ||| u == 0x1680
    ||| 0x2000 <= u <= 0x200A
    ||| u == 0x2028
    ||| u == 0x2029
    ||| u == 0x202F
    ||| u == 0x205F
    ||| u == 0x3000
}

/// `s` without its leading white space.
pub open spec fn trim_start(s: Seq<char>) -> Seq<char>
    decreases s.len(),
{
    if s.len() > 0 && is_white_space(s[0]) {
        trim_start(s.drop_first())
    } else {
        s
    }
}

/// `s` without its trailing white space.
pub open spec fn trim_end(s: Seq<char>) -> Seq<char>
    decreases s.len(),
{
    if s.len() > 0 && is_white_space(s.last()) {
        trim_end(s.drop_last())
    } else {
        s
    }
}

/// `s` without leading and trailing white space (`str::trim`).
pub open spec fn trim(s: Seq<char>) -> Seq<char> {
    trim_end(trim_start(s))
}

/// The index of the first `c` in `s`, or -1 when there is none.
pub open spec fn index_of(s: Seq<char>, c: char) -> int
    decreases s.len(),
{
    if s.len() == 0 {
        -1
    } else if s[0] == c {
        0
    } else {
        let r = index_of(s.drop_first(), c);
        if r < 0 {
            -1
        } else {
            r + 1
        }
    }
}

pub proof fn lemma_index_of(s: Seq<char>, c: char)
    ensures
        -1 <= index_of(s, c) < s.len(),
        index_of(s, c) >= 0 ==> s[index_of(s, c)] == c,
        forall|k: int| 0 <= k < s.len() && (index_of(s, c) < 0 || k < index_of(s, c)) ==> #[trigger] s[k]
            != c,
    decreases s.len(),
{
    if s.len() > 0 {
        lemma_index_of(s.drop_first(), c);
        assert forall|k: int|
            0 <= k < s.len() && (index_of(s, c) < 0 || k < index_of(s, c)) implies #[trigger] s[k]
            != c by {
            if k > 0 {
                assert(s[k] == s.drop_first()[k - 1]);
            }
        }
    }
}

/// The pieces of `s` between occurrences of `c` (`str::split` with a char).
pub open spec fn split(s: Seq<char>, c: char) -> Seq<Seq<char>>
    decreases s.len(),
{
    let i = index_of(s, c);
    if i < 0 {
        seq![s]
    } else {
        proof {
            lemma_index_of(s, c);
        }
        seq![s.take(i)] + split(s.skip(i + 1), c)
    }
}

/// A line without the carriage return that ended it.
pub open spec fn strip_cr(l: Seq<char>) -> Seq<char> {
    if l.len() > 0 && l.last() == '\r' {
        l.drop_last()
    } else {
        l
    }
}

/// The lines of `s` (`str::lines`): the pieces between line feeds, each that
/// a line feed ended without a final carriage return, and without a final
/// empty piece.
pub open spec fn lines(s: Seq<char>) -> Seq<Seq<char>> {
    let p = split(s, '\n');
    let n = p.len();
    let body = p.take(n - 1).map_values(|l: Seq<char>| strip_cr(l));
    if p[n - 1].len() == 0 {
        body
    } else {
        body.push(p[n - 1])
    }
}

pub open spec fn is_digit(c: char) -> bool {
    '0' <= c && c <= '9'
}

pub open spec fn digit_value(c: char) -> nat {
    (c as u32 - '0' as u32) as nat
}

/// The number that a string of decimal digits spells.
pub open spec fn digits_value(s: Seq<char>) -> nat
    decreases s.len(),
{
    if s.len() == 0 {
        0
    } else {
        digits_value(s.drop_last()) * 10 + digit_value(s.last())
    }
}

/// The value of a string of decimal digits that fits in `u32`.
pub open spec fn parse_digits(d: Seq<char>) -> Option<u32> {
    if d.len() == 0 || exists|i: int| 0 <= i < d.len() && !is_digit(#[trigger] d[i]) || digits_value(d)
        > u32::MAX {
        None
    } else {
        Some(digits_value(d) as u32)
    }
}

/// What `str::parse::<u32>` gives: an optional `+`, then one or more decimal
/// digits, of a value that fits in `u32`.
pub open spec fn parse_u32(s: Seq<char>) -> Option<u32> {
    if s.len() > 0 && s[0] == '+' {
        parse_digits(s.drop_first())
    } else {
        parse_digits(s)
    }
}

pub open spec fn digit_char(d: nat) -> char {
    ('0' as u32 + d) as char
}

/// The decimal digits of `n`, without leading zeros.
pub open spec fn decimal(n: nat) -> Seq<char>
    decreases n,
{
    if n < 10 {
        seq![digit_char(n)]
    } else {
        decimal(n / 10).push(digit_char(n % 10))
    }
}


/// Appends `c` to `s` (`String::push`, which vstd does not specify).
#[verifier::external_body]
pub(crate) fn push_char(s: &mut String, c: char)
    ensures
        final(s)@ == old(s)@.push(c),
{
    s.push(c);
}

/// Appends the characters `v[lo..hi]` to `out`.
pub fn push_chars(out: &mut String, v: &Vec<char>, lo: usize, hi: usize)
    requires
        lo <= hi <= v.len(),
    ensures
        final(out)@ == old(out)@ + v@.subrange(lo as int, hi as int),
{
    let mut i = lo;
    while i < hi
        invariant
            lo <= i <= hi <= v.len(),
            out@ == old(out)@ + v@.subrange(lo as int, i as int),
        decreases hi - i,
    {
        push_char(out, v[i]);
        assert(v@.subrange(lo as int, i + 1) =~= v@.subrange(lo as int, i as int).push(v@[i as int]));
        i = i + 1;
    }
}

/// The string of the characters `v[lo..hi]`.
pub fn string_of(v: &Vec<char>, lo: usize, hi: usize) -> (s: String)
    requires
        lo <= hi <= v.len(),
    ensures
        s@ == v@.subrange(lo as int, hi as int),
{
    let mut s = String::new();
    push_chars(&mut s, v, lo, hi);
    s
}

/// Whether `c` is white space (`char::is_whitespace`).
pub fn char_is_white_space(c: char) -> (b: bool)
    ensures
        b == is_white_space(c),
{
    let u = c as u32;
    (0x09 <= u && u <= 0x0D) || u == 0x20 || u == 0x85 || u == 0xA0 || u == 0x1680 || (0x2000 <= u
        && u <= 0x200A) || u == 0x2028 || u == 0x2029 || u == 0x202F || u == 0x205F || u == 0x3000
}

/// The bounds of `v[lo..hi]` once trimmed.
pub fn trim_bounds(v: &Vec<char>, lo: usize, hi: usize) -> (r: (usize, usize))
    requires
        lo <= hi <= v.len(),
    ensures
        lo <= r.0 <= r.1 <= hi,
        v@.subrange(r.0 as int, r.1 as int) == trim(v@.subrange(lo as int, hi as int)),
{
    let mut a = lo;
    while a < hi && char_is_white_space(v[a])
        invariant
            lo <= a <= hi <= v.len(),
            trim_start(v@.subrange(lo as int, hi as int)) == trim_start(v@.subrange(a as int, hi as int)),
        decreases hi - a,
    {
        assert(v@.subrange(a as int, hi as int).drop_first() =~= v@.subrange(a + 1, hi as int));
        a = a + 1;
    }
    let mut b = hi;
    while b > a && char_is_white_space(v[b - 1])
        invariant
            lo <= a <= b <= hi <= v.len(),
            trim_end(v@.subrange(a as int, hi as int)) == trim_end(v@.subrange(a as int, b as int)),
        decreases b - a,
    {
        assert(v@.subrange(a as int, b as int).drop_last() =~= v@.subrange(a as int, b - 1));
        b = b - 1;
    }
    (a, b)
}

/// The first `c` of `s` is at `i`.
pub proof fn lemma_index_of_is(s: Seq<char>, c: char, i: int)
    requires
        0 <= i < s.len(),
        s[i] == c,
        forall|k: int| 0 <= k < i ==> s[k] != c,
    ensures
        index_of(s, c) == i,
{
    lemma_index_of(s, c);
    let r = index_of(s, c);
    if r < 0 {
        assert(s[i] != c);
    } else if r < i {
        assert(s[r] != c);
    } else if r > i {
        assert(s[i] != c);
    }
}

/// There is no `c` in `s`.
pub proof fn lemma_index_of_none(s: Seq<char>, c: char)
    requires
        forall|k: int| 0 <= k < s.len() ==> s[k] != c,
    ensures
        index_of(s, c) == -1,
{
    lemma_index_of(s, c);
    if index_of(s, c) >= 0 {
        assert(s[index_of(s, c)] != c);
    }
}

/// The position of the first `c` in `v[lo..hi]`, if any.
pub fn find_char(v: &Vec<char>, lo: usize, hi: usize, c: char) -> (r: Option<usize>)
    requires
        lo <= hi <= v.len(),
    ensures
        match r {
            Some(i) => lo <= i < hi && index_of(v@.subrange(lo as int, hi as int), c) == i - lo,
            None => index_of(v@.subrange(lo as int, hi as int), c) == -1,
        },
{
    let ghost sub = v@.subrange(lo as int, hi as int);
    let mut i = lo;
    while i < hi
        invariant
            lo <= i <= hi <= v.len(),
            sub == v@.subrange(lo as int, hi as int),
            forall|k: int| 0 <= k < i - lo ==> sub[k] != c,
        decreases hi - i,
    {
        if v[i] == c {
            proof {
                lemma_index_of_is(sub, c, i - lo);
            }
            return Some(i);
        }
        i = i + 1;
    }
    proof {
        lemma_index_of_none(sub, c);
    }
    None
}

pub proof fn lemma_digits_value_prefix(s: Seq<char>, k: int)
    requires
        0 <= k <= s.len(),
    ensures
        digits_value(s.take(k)) <= digits_value(s),
    decreases s.len(),
{
    if k < s.len() {
        assert(s.drop_last().take(k) =~= s.take(k));
        lemma_digits_value_prefix(s.drop_last(), k);
    } else {
        assert(s.take(k) =~= s);
    }
}

/// `v[lo..hi]` parsed as a `u32` (`str::parse::<u32>`).
pub fn parse_u32_range(v: &Vec<char>, lo: usize, hi: usize) -> (r: Option<u32>)
    requires
        lo <= hi <= v.len(),
    ensures
        r == parse_u32(v@.subrange(lo as int, hi as int)),
{
    let ghost s = v@.subrange(lo as int, hi as int);
    let start = if lo < hi && v[lo] == '+' {
        lo + 1
    } else {
        lo
    };
    let ghost d = v@.subrange(start as int, hi as int);
    assert(d =~= (if s.len() > 0 && s[0] == '+' {
        s.drop_first()
    } else {
        s
    }));
    if start == hi {
        return None;
    }
    let mut acc: u64 = 0;
    let mut i = start;
    while i < hi
        invariant
            lo <= start < hi <= v.len(),
            start <= i <= hi,
            d == v@.subrange(start as int, hi as int),
            s == v@.subrange(lo as int, hi as int),
            d == (if s.len() > 0 && s[0] == '+' {
                s.drop_first()
            } else {
                s
            }),
            acc <= u32::MAX,
            acc == digits_value(d.take(i - start)),
            forall|k: int| 0 <= k < i - start ==> is_digit(#[trigger] d[k]),
        decreases hi - i,
    {
        let ch = v[i];
        if !('0' <= ch && ch <= '9') {
            assert(!is_digit(d[i - start]));
            assert(exists|k: int| 0 <= k < d.len() && !is_digit(#[trigger] d[k]));
            assert(parse_u32(s) is None);
            return None;
        }
        assert(d.take(i - start + 1).drop_last() =~= d.take(i - start));
        assert(d.take(i - start + 1).last() == ch);
        let dv = (ch as u32 - '0' as u32) as u64;
        assert(dv == digit_value(ch));
        acc = acc * 10 + dv;
        assert(acc == digits_value(d.take(i - start + 1)));
        if acc > u32::MAX as u64 {
            proof {
                lemma_digits_value_prefix(d, i - start + 1);
            }
            assert(digits_value(d) > u32::MAX);
            assert(parse_u32(s) is None);
            return None;
        }
        i = i + 1;
    }
    assert(d.take(hi - start) =~= d);
    Some(acc as u32)
}

/// Appends the decimal digits of `n` to `out`.
pub fn push_decimal(out: &mut String, n: u32)
    ensures
        final(out)@ == old(out)@ + decimal(n as nat),
    decreases n,
{
    if n >= 10 {
        push_decimal(out, n / 10);
    }
    let d = n % 10;
    let c = char_of_digit(d);
    push_char(out, c);
    assert(n < 10 ==> n % 10 == n);
}

fn char_of_digit(d: u32) -> (c: char)
    requires
        d < 10,
    ensures
        c == digit_char(d as nat),
{
    let c = if d == 0 {
        '0'
    } else if d == 1 {
        '1'
    } else if d == 2 {
        '2'
    } else if d == 3 {
        '3'
    } else if d == 4 {
        '4'
    } else if d == 5 {
        '5'
    } else if d == 6 {
        '6'
    } else if d == 7 {
        '7'
    } else if d == 8 {
        '8'
    } else {
        '9'
    };
    c
}

proof fn lemma_digit_char(d: nat)
    requires
        d < 10,
    ensures
        is_digit(digit_char(d)),
        digit_value(digit_char(d)) == d,
{
    assert(digit_char(d) as u32 == '0' as u32 + d);
}

pub proof fn lemma_decimal_digits(n: nat)
    ensures
        decimal(n).len() >= 1,
        forall|i: int| 0 <= i < decimal(n).len() ==> is_digit(#[trigger] decimal(n)[i]),
        digits_value(decimal(n)) == n,
    decreases n,
{
    lemma_digit_char(n % 10);
    if n < 10 {
        assert(decimal(n).drop_last() =~= Seq::<char>::empty());
        assert(digits_value(decimal(n)) == digits_value(decimal(n).drop_last()) * 10 + digit_value(decimal(n).last()));
    } else {
        assert(n == (n / 10) * 10 + n % 10);
        lemma_decimal_digits(n / 10);
        let d = decimal(n);
        assert(d.drop_last() =~= decimal(n / 10));
        assert(digits_value(d) == digits_value(decimal(n / 10)) * 10 + digit_value(d.last()));
        assert forall|i: int| 0 <= i < d.len() implies is_digit(#[trigger] d[i]) by {
            if i < d.len() - 1 {
                assert(d[i] == decimal(n / 10)[i]);
            }
        }
    }
}

/// A number written in decimal parses back to itself.
pub proof fn lemma_parse_decimal(n: u32)
    ensures
        parse_u32(decimal(n as nat)) == Some(n),
{
    lemma_decimal_digits(n as nat);
    let s = decimal(n as nat);
    assert(is_digit(s[0]));
}


/// The text of each range `(lo, hi)` of `v`.
pub open spec fn range_texts(v: Seq<char>, r: Seq<(usize, usize)>) -> Seq<Seq<char>> {
    r.map_values(|p: (usize, usize)| v.subrange(p.0 as int, p.1 as int))
}

/// Every range of `r` lies within `v[lo..hi]`.
pub open spec fn ranges_within(r: Seq<(usize, usize)>, lo: int, hi: int) -> bool {
    forall|i: int| 0 <= i < r.len() ==> lo <= (#[trigger] r[i]).0 <= r[i].1 <= hi
}

pub proof fn lemma_split_nonempty(s: Seq<char>, c: char)
    ensures
        split(s, c).len() >= 1,
    decreases s.len(),
{
    lemma_index_of(s, c);
    if index_of(s, c) >= 0 {
        lemma_split_nonempty(s.skip(index_of(s, c) + 1), c);
    }
}

/// The ranges of the pieces of `v[lo..hi]` between occurrences of `c`.
pub fn split_ranges(v: &Vec<char>, lo: usize, hi: usize, c: char) -> (r: Vec<(usize, usize)>)
    requires
        lo <= hi <= v.len(),
    ensures
        ranges_within(r@, lo as int, hi as int),
        range_texts(v@, r@) == split(v@.subrange(lo as int, hi as int), c),
{
    let mut r: Vec<(usize, usize)> = Vec::new();
    let mut i = lo;
    loop
        invariant
            lo <= i <= hi <= v.len(),
            ranges_within(r@, lo as int, hi as int),
            split(v@.subrange(lo as int, hi as int), c) == range_texts(v@, r@) + split(
                v@.subrange(i as int, hi as int),
                c,
            ),
        decreases hi - i,
    {
        let ghost rest = v@.subrange(i as int, hi as int);
        match find_char(v, i, hi, c) {
            Some(j) => {
                proof {
                    assert(rest.take(j - i) =~= v@.subrange(i as int, j as int));
                    assert(rest.skip(j - i + 1) =~= v@.subrange(j + 1, hi as int));
                    assert(split(rest, c) == seq![v@.subrange(i as int, j as int)] + split(
                        v@.subrange(j + 1, hi as int),
                        c,
                    ));
                }
                let ghost old_r = r@;
                r.push((i, j));
                assert(range_texts(v@, r@) =~= range_texts(v@, old_r) + seq![
                    v@.subrange(i as int, j as int),
                ]);
                i = j + 1;
            },
            None => {
                let ghost old_r = r@;
                r.push((i, hi));
                assert(range_texts(v@, r@) =~= range_texts(v@, old_r) + split(rest, c));
                return r;
            },
        }
    }
}

/// The ranges of the lines of `v[lo..hi]`.
pub fn line_ranges(v: &Vec<char>, lo: usize, hi: usize) -> (r: Vec<(usize, usize)>)
    requires
        lo <= hi <= v.len(),
    ensures
        ranges_within(r@, lo as int, hi as int),
        range_texts(v@, r@) == lines(v@.subrange(lo as int, hi as int)),
{
    let pieces = split_ranges(v, lo, hi, '\n');
    let ghost p = split(v@.subrange(lo as int, hi as int), '\n');
    proof {
        lemma_split_nonempty(v@.subrange(lo as int, hi as int), '\n');
    }
    let n = pieces.len();
    let mut r: Vec<(usize, usize)> = Vec::new();
    let mut k: usize = 0;
    while k + 1 < n
        invariant
            n == pieces.len(),
            n == p.len(),
            n >= 1,
            k + 1 <= n,
            lo <= hi <= v.len(),
            ranges_within(pieces@, lo as int, hi as int),
            range_texts(v@, pieces@) == p,
            ranges_within(r@, lo as int, hi as int),
            range_texts(v@, r@) == p.take(k as int).map_values(|l: Seq<char>| strip_cr(l)),
        decreases n - k,
    {
        let (a, b) = pieces[k];
        assert(lo <= pieces@[k as int].0 <= pieces@[k as int].1 <= hi);
        let b2 = if a < b && v[b - 1] == '\r' {
            b - 1
        } else {
            b
        };
        assert(p[k as int] == v@.subrange(a as int, b as int));
        assert(v@.subrange(a as int, b2 as int) == strip_cr(p[k as int])) by {
            if a < b && v@[b - 1] == '\r' {
                assert(v@.subrange(a as int, b as int).drop_last() =~= v@.subrange(a as int, b2 as int));
            }
        }
        let ghost old_r = r@;
        r.push((a, b2));
        assert(range_texts(v@, r@) =~= p.take(k + 1).map_values(|l: Seq<char>| strip_cr(l))) by {
            assert(range_texts(v@, r@) =~= range_texts(v@, old_r).push(v@.subrange(a as int, b2 as int)));
        }
        k = k + 1;
    }
    let (a, b) = pieces[n - 1];
    assert(lo <= pieces@[n - 1].0 <= pieces@[n - 1].1 <= hi);
    assert(p[n - 1] == v@.subrange(a as int, b as int));
    if a < b {
        let ghost old_r = r@;
        r.push((a, b));
        assert(range_texts(v@, r@) =~= range_texts(v@, old_r).push(v@.subrange(a as int, b as int)));
    }
    r
}

/// The characters of `s`, in order.
pub fn chars_of(s: &str) -> (v: Vec<char>)
    ensures
        v@ == s@,
{
    let mut v: Vec<char> = Vec::new();
    for c in it: s.chars()
        invariant
            v@ == it.seq().take(it.index() as int),
    {
        v.push(c);
    }
    v
}

/// The parts with `sep` between each two of them.
pub open spec fn join(parts: Seq<Seq<char>>, sep: char) -> Seq<char>
    decreases parts.len(),
{
    if parts.len() == 0 {
        seq![]
    } else if parts.len() == 1 {
        parts[0]
    } else {
        join(parts.drop_last(), sep).push(sep) + parts.last()
    }
}

/// `s` holds no `c`.
pub open spec fn free_of(s: Seq<char>, c: char) -> bool {
    forall|i: int| 0 <= i < s.len() ==> s[i] != c
}

pub proof fn lemma_index_of_after_free(a: Seq<char>, b: Seq<char>, c: char)
    requires
        free_of(a, c),
    ensures
        index_of(a + b, c) == if index_of(b, c) < 0 {
            -1
        } else {
            a.len() + index_of(b, c)
        },
{
    lemma_index_of(b, c);
    let s = a + b;
    if index_of(b, c) < 0 {
        assert forall|k: int| 0 <= k < s.len() implies s[k] != c by {
            if k >= a.len() {
                assert(s[k] == b[k - a.len()]);
            }
        }
        lemma_index_of_none(s, c);
    } else {
        let i = a.len() + index_of(b, c);
        assert forall|k: int| 0 <= k < i implies s[k] != c by {
            if k >= a.len() {
                assert(s[k] == b[k - a.len()]);
            }
        }
        lemma_index_of_is(s, c, i);
    }
}

pub proof fn lemma_index_of_before(a: Seq<char>, b: Seq<char>, c: char)
    requires
        index_of(a, c) >= 0,
    ensures
        index_of(a + b, c) == index_of(a, c),
{
    lemma_index_of(a, c);
    let s = a + b;
    let i = index_of(a, c);
    assert forall|k: int| 0 <= k < i implies s[k] != c by {
        assert(s[k] == a[k]);
    }
    lemma_index_of_is(s, c, i);
}

pub proof fn lemma_split_free(a: Seq<char>, c: char)
    requires
        free_of(a, c),
    ensures
        split(a, c) == seq![a],
{
    lemma_index_of_none(a, c);
}

/// Splitting at a separator splits on each side of it.
pub proof fn lemma_split_concat(a: Seq<char>, b: Seq<char>, c: char)
    ensures
        split(a + seq![c] + b, c) == split(a, c) + split(b, c),
    decreases a.len(),
{
    let s = a + seq![c] + b;
    lemma_index_of(a, c);
    let i = index_of(a, c);
    if i < 0 {
        lemma_index_of_after_free(a, seq![c] + b, c);
        assert(a + (seq![c] + b) =~= s);
        assert(index_of(seq![c] + b, c) == 0);
        assert(s.take(a.len() as int) =~= a);
        assert(s.skip(a.len() as int + 1) =~= b);
        lemma_split_free(a, c);
    } else {
        assert(a + (seq![c] + b) =~= s);
        lemma_index_of_before(a, seq![c] + b, c);
        lemma_split_concat(a.skip(i + 1), b, c);
        assert(s.take(i) =~= a.take(i));
        assert(s.skip(i + 1) =~= a.skip(i + 1) + seq![c] + b);
    }
}

/// Splitting parts joined with a separator that none of them holds gives the parts back.
pub proof fn lemma_split_join(parts: Seq<Seq<char>>, c: char)
    requires
        parts.len() >= 1,
        forall|i: int| 0 <= i < parts.len() ==> free_of(#[trigger] parts[i], c),
    ensures
        split(join(parts, c), c) == parts,
    decreases parts.len(),
{
    if parts.len() == 1 {
        lemma_split_free(parts[0], c);
    } else {
        let p = parts.drop_last();
        assert forall|i: int| 0 <= i < p.len() implies free_of(#[trigger] p[i], c) by {
            assert(p[i] == parts[i]);
        }
        lemma_split_join(p, c);
        assert(join(p, c).push(c) + parts.last() =~= join(p, c) + seq![c] + parts.last());
        lemma_split_concat(join(p, c), parts.last(), c);
        assert(free_of(parts[parts.len() - 1], c));
        lemma_split_free(parts.last(), c);
        assert(p + seq![parts.last()] =~= parts);
    }
}

/// A string that starts and ends with non-white-space is its own trim.
pub proof fn lemma_trim_fixed(s: Seq<char>)
    requires
        s.len() > 0,
        !is_white_space(s[0]),
        !is_white_space(s.last()),
    ensures
        trim(s) == s,
{
}

/// A leading white space character goes away when trimming.
pub proof fn lemma_trim_leading(c: char, s: Seq<char>)
    requires
        is_white_space(c),
    ensures
        trim(seq![c] + s) == trim(s),
{
    assert((seq![c] + s).drop_first() =~= s);
}

/// Joining parts none of which holds `d`, with a separator other than `d`,
/// gives text without `d`; its last character is that of the last part.
pub proof fn lemma_join_free(parts: Seq<Seq<char>>, sep: char, d: char)
    requires
        sep != d,
        forall|i: int| 0 <= i < parts.len() ==> free_of(#[trigger] parts[i], d),
    ensures
        free_of(join(parts, sep), d),
        parts.len() >= 1 && parts.last().len() > 0 ==> join(parts, sep).len() > 0 && join(
            parts,
            sep,
        ).last() == parts.last().last(),
    decreases parts.len(),
{
    if parts.len() > 1 {
        let p = parts.drop_last();
        assert forall|i: int| 0 <= i < p.len() implies free_of(#[trigger] p[i], d) by {
            assert(p[i] == parts[i]);
        }
        lemma_join_free(p, sep, d);
        let j = join(parts, sep);
        let l = parts.last();
        assert(free_of(parts[parts.len() - 1], d));
        assert forall|i: int| 0 <= i < j.len() implies j[i] != d by {
            let jp = join(p, sep);
            if i < jp.len() {
                assert(j[i] == jp[i]);
            } else if i > jp.len() {
                assert(j[i] == l[i - jp.len() - 1]);
            }
        }
    } else if parts.len() == 1 {
        assert(free_of(parts[0], d));
    }
}

/// The lower-case hexadecimal digit of value `d`.
pub open spec fn hex_char(d: nat) -> char {
    if d < 10 {
        ('0' as u32 + d) as char
    } else {
        ('a' as u32 + (d - 10)) as char
    }
}

/// The lower-case hexadecimal digits of `n`, without leading zeros (`{:x}`).
pub open spec fn hex(n: nat) -> Seq<char>
    decreases n,
{
    if n < 16 {
        seq![hex_char(n)]
    } else {
        hex(n / 16).push(hex_char(n % 16))
    }
}

fn hex_char_of(d: u64) -> (c: char)
    requires
        d < 16,
    ensures
        c == hex_char(d as nat),
{
    if d < 10 {
        let c = char_of_digit(d as u32);
        c
    } else if d == 10 {
        'a'
    } else if d == 11 {
        'b'
    } else if d == 12 {
        'c'
    } else if d == 13 {
        'd'
    } else if d == 14 {
        'e'
    } else {
        'f'
    }
}

/// Appends the lower-case hexadecimal digits of `n` to `out`.
pub fn push_hex(out: &mut String, n: u64)
    ensures
        final(out)@ == old(out)@ + hex(n as nat),
    decreases n,
{
    if n >= 16 {
        push_hex(out, n / 16);
    }
    let c = hex_char_of(n % 16);
    push_char(out, c);
    assert(n < 16 ==> n % 16 == n);
}

} // verus!
