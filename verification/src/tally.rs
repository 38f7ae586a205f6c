//! Counting helpers shared by the assignment algorithms: how often a tile
//! occurs in an assignment, and finite sums over tile indices.

use vstd::prelude::*;

verus! {

/// Number of entries of `s` equal to `Some(t)`.
pub open spec fn uses(s: Seq<Option<usize>>, t: int) -> nat
    decreases s.len(),
{
    if s.len() == 0 {
        0
    } else {
        uses(s.drop_last(), t) + if s.last() is Some && s.last().unwrap() as int == t { 1nat } else { 0nat }
    }
}

/// Number of entries of `s` equal to `t`.
pub open spec fn occurrences(s: Seq<usize>, t: int) -> nat
    decreases s.len(),
{
    if s.len() == 0 {
        0
    } else {
        occurrences(s.drop_last(), t) + if s.last() as int == t { 1nat } else { 0nat }
    }
}

/// `f(0) + f(1) + ... + f(n - 1)`.
pub open spec fn sum_upto(f: spec_fn(int) -> int, n: int) -> int
    decreases n,
{
    if n <= 0 {
        0
    } else {
        sum_upto(f, n - 1) + f(n - 1)
    }
}

pub proof fn lemma_uses_push(s: Seq<Option<usize>>, x: Option<usize>, t: int)
    ensures
        uses(s.push(x), t) == uses(s, t) + if x is Some && x.unwrap() as int == t { 1nat } else { 0nat },
{
    assert(s.push(x).drop_last() =~= s);
}

pub proof fn lemma_occurrences_push(s: Seq<usize>, x: usize, t: int)
    ensures
        occurrences(s.push(x), t) == occurrences(s, t) + if x as int == t { 1nat } else { 0nat },
{
    assert(s.push(x).drop_last() =~= s);
}

/// Two functions that agree below `n` have the same sum up to `n`.
pub proof fn lemma_sum_ext(f: spec_fn(int) -> int, g: spec_fn(int) -> int, n: int)
    requires
        forall|i: int| 0 <= i < n ==> #[trigger] f(i) == g(i),
    ensures
        sum_upto(f, n) == sum_upto(g, n),
    decreases n,
{
    if n > 0 {
        lemma_sum_ext(f, g, n - 1);
    }
}

/// Changing one term changes the sum by the same amount.
pub proof fn lemma_sum_change_one(f: spec_fn(int) -> int, g: spec_fn(int) -> int, n: int, k: int)
    requires
        0 <= k < n,
        forall|i: int| 0 <= i < n && i != k ==> #[trigger] f(i) == g(i),
    ensures
        sum_upto(g, n) == sum_upto(f, n) + (g(k) - f(k)),
    decreases n,
{
    if n - 1 == k {
        lemma_sum_ext(f, g, n - 1);
    } else {
        lemma_sum_change_one(f, g, n - 1, k);
    }
}

/// A sum of zeros is zero.
pub proof fn lemma_sum_zero(f: spec_fn(int) -> int, n: int)
    requires
        forall|i: int| 0 <= i < n ==> #[trigger] f(i) == 0,
    ensures
        sum_upto(f, n) == 0,
    decreases n,
{
    if n > 0 {
        lemma_sum_zero(f, n - 1);
    }
}

/// A tile occurs at most as often as there are entries.
pub proof fn lemma_uses_le_len(s: Seq<Option<usize>>, t: int)
    ensures
        uses(s, t) <= s.len(),
    decreases s.len(),
{
    if s.len() > 0 {
        lemma_uses_le_len(s.drop_last(), t);
    }
}

/// If `f <= g` pointwise and the sum of `f` is below that of `g`, then some
/// term of `f` is below the matching term of `g`.
pub proof fn lemma_sum_lt_witness(f: spec_fn(int) -> int, g: spec_fn(int) -> int, n: int) -> (k: int)
    requires
        sum_upto(f, n) < sum_upto(g, n),
    ensures
        0 <= k < n,
        f(k) < g(k),
    decreases n,
{
    if n <= 0 {
        assert(false);
        0
    } else if f(n - 1) < g(n - 1) {
        n - 1
    } else {
        lemma_sum_lt_witness(f, g, n - 1)
    }
}

/// If `f <= g` pointwise and both sums agree, then `f` and `g` agree.
pub proof fn lemma_sum_eq_pointwise(f: spec_fn(int) -> int, g: spec_fn(int) -> int, n: int)
    requires
        forall|i: int| 0 <= i < n ==> #[trigger] f(i) <= g(i),
        sum_upto(f, n) == sum_upto(g, n),
    ensures
        forall|i: int| 0 <= i < n ==> #[trigger] f(i) == g(i),
    decreases n,
{
    if n > 0 {
        lemma_sum_le(f, g, n - 1);
        lemma_sum_eq_pointwise(f, g, n - 1);
    }
}

pub proof fn lemma_sum_le(f: spec_fn(int) -> int, g: spec_fn(int) -> int, n: int)
    requires
        forall|i: int| 0 <= i < n ==> #[trigger] f(i) <= g(i),
    ensures
        sum_upto(f, n) <= sum_upto(g, n),
    decreases n,
{
    if n > 0 {
        lemma_sum_le(f, g, n - 1);
    }
}

/// The sum of the uses of every tile below `n` counts the entries of `s`
/// that name a tile below `n`; when every entry names one, it is `s.len()`.
pub proof fn lemma_uses_total(s: Seq<Option<usize>>, n: int)
    requires
        0 <= n,
        forall|k: int| 0 <= k < s.len() ==> (#[trigger] s[k]) is Some && s[k].unwrap() < n,
    ensures
        sum_upto(|t: int| uses(s, t) as int, n) == s.len(),
    decreases s.len(),
{
    if s.len() == 0 {
        lemma_sum_zero(|t: int| uses(s, t) as int, n);
    } else {
        let p = s.drop_last();
        assert forall|k: int| 0 <= k < p.len() implies (#[trigger] p[k]) is Some && p[k].unwrap() < n by {
            assert(p[k] == s[k]);
        }
        lemma_uses_total(p, n);
        let x = s.last().unwrap() as int;
        assert(s[s.len() - 1] is Some);
        lemma_sum_change_one(|t: int| uses(p, t) as int, |t: int| uses(s, t) as int, n, x);
    }
}

/// The sum of the occurrences of every value below `n` is the length of `s`,
/// when every entry of `s` is below `n`.
pub proof fn lemma_occurrences_total(s: Seq<usize>, n: int)
    requires
        0 <= n,
        forall|k: int| 0 <= k < s.len() ==> (#[trigger] s[k]) < n,
    ensures
        sum_upto(|t: int| occurrences(s, t) as int, n) == s.len(),
    decreases s.len(),
{
    if s.len() == 0 {
        lemma_sum_zero(|t: int| occurrences(s, t) as int, n);
    } else {
        let p = s.drop_last();
        assert forall|k: int| 0 <= k < p.len() implies (#[trigger] p[k]) < n by {
            assert(p[k] == s[k]);
        }
        lemma_occurrences_total(p, n);
        let x = s.last() as int;
        assert(s[s.len() - 1] < n);
        lemma_sum_change_one(|t: int| occurrences(p, t) as int, |t: int| occurrences(s, t) as int, n, x);
    }
}

/// `c + c + ... + c` (`n` terms) is `c * n`.
pub proof fn lemma_sum_const(c: int, n: int)
    requires
        0 <= n,
    ensures
        sum_upto(|t: int| c, n) == c * n,
    decreases n,
{
    let f = |t: int| c;
    if n > 0 {
        lemma_sum_const(c, n - 1);
        assert(sum_upto(f, n) == sum_upto(f, n - 1) + f(n - 1));
        assert(c * n == c * (n - 1) + c) by (nonlinear_arith);
    } else {
        assert(sum_upto(f, n) == 0);
    }
}

pub proof fn lemma_occurrences_le_len(s: Seq<usize>, t: int)
    ensures
        occurrences(s, t) <= s.len(),
    decreases s.len(),
{
    if s.len() > 0 {
        lemma_occurrences_le_len(s.drop_last(), t);
    }
}

} // verus!
