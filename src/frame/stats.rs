//! Integer statistics of gray levels: sums, spread and square roots.
use vstd::prelude::*;

verus! {

/// Sum of a sequence of integers.
pub open spec fn sum(s: Seq<int>) -> int
    decreases s.len(),
{
    if s.len() == 0 {
        0
    } else {
        sum(s.drop_last()) + s.last()
    }
}

/// Sum of the squares of a sequence of integers.
pub open spec fn square_sum(s: Seq<int>) -> int
    decreases s.len(),
{
    if s.len() == 0 {
        0
    } else {
        square_sum(s.drop_last()) + s.last() * s.last()
    }
}

/// The spread n·Σv² − (Σv)² of `n` values with sum `s` and sum of squares
/// `q`: n² times their population variance.
pub open spec fn spread(n: int, s: int, q: int) -> int {
    if n * q >= s * s {
        n * q - s * s
    } else {
        0
    }
}

/// `r` is the integer square root of `v`, rounded down.
pub open spec fn is_floor_sqrt(r: int, v: int) -> bool {
    0 <= r && r * r <= v && v < (r + 1) * (r + 1)
}

/// The integer square root of `v`, rounded down.
pub open spec fn floor_sqrt(v: int) -> int {
    choose|r: int| is_floor_sqrt(r, v)
}

/// The rounded-down square root is unique.
pub proof fn lemma_floor_sqrt_unique(r: int, v: int)
    requires
        is_floor_sqrt(r, v),
    ensures
        floor_sqrt(v) == r,
{
    let c = floor_sqrt(v);
    assert(is_floor_sqrt(c, v));
    if c < r {
        assert((c + 1) * (c + 1) <= r * r) by (nonlinear_arith)
            requires
                0 <= c,
                c + 1 <= r,
        ;
    } else if r < c {
        assert((r + 1) * (r + 1) <= c * c) by (nonlinear_arith)
            requires
                0 <= r,
                r + 1 <= c,
        ;
    }
}

/// Integer square root by bisection, for `v` below 2^88.
pub fn isqrt(v: u128) -> (r: u64)
    requires
        v < 0x100_0000_0000_0000_0000_0000,
    ensures
        is_floor_sqrt(r as int, v as int),
        r as int == floor_sqrt(v as int),
{
    let mut lo: u128 = 0;
    let mut hi: u128 = 0x1000_0000_0000;
    assert(hi * hi == 0x100_0000_0000_0000_0000_0000);
    while hi - lo > 1
        invariant
            lo < hi <= 0x1000_0000_0000,
            lo * lo <= v,
            v < hi * hi,
        decreases hi - lo,
    {
        let mid = lo + (hi - lo) / 2;
        assert(mid * mid <= 0x1000_0000_0000 * 0x1000_0000_0000) by (nonlinear_arith)
            requires
                0 <= mid <= 0x1000_0000_0000,
        ;
        if mid * mid <= v {
            lo = mid;
        } else {
            hi = mid;
        }
    }
    proof {
        lemma_floor_sqrt_unique(lo as int, v as int);
    }
    lo as u64
}

/// Sum of `levels`, with the bound that keeps it in range.
pub fn level_sum(levels: &Vec<u8>) -> (s: u64)
    requires
        levels@.len() <= 0x1_0000_0000,
    ensures
        s == sum(levels@.map_values(|v: u8| v as int)),
        s <= 255 * levels@.len(),
{
    let ghost vals = levels@.map_values(|v: u8| v as int);
    let mut s: u64 = 0;
    let mut i: usize = 0;
    while i < levels.len()
        invariant
            i <= levels@.len() <= 0x1_0000_0000,
            vals == levels@.map_values(|v: u8| v as int),
            s == sum(vals.take(i as int)),
            s <= 255 * i,
        decreases levels@.len() - i,
    {
        assert(vals.take(i + 1).drop_last() == vals.take(i as int));
        s = s + levels[i] as u64;
        i = i + 1;
    }
    assert(vals.take(i as int) == vals);
    s
}

/// Sum of the squares of `levels`, with the bound that keeps it in range.
pub fn level_square_sum(levels: &Vec<u8>) -> (q: u64)
    requires
        levels@.len() <= 0x1_0000_0000,
    ensures
        q == square_sum(levels@.map_values(|v: u8| v as int)),
        q <= 65025 * levels@.len(),
{
    let ghost vals = levels@.map_values(|v: u8| v as int);
    let mut q: u64 = 0;
    let mut i: usize = 0;
    while i < levels.len()
        invariant
            i <= levels@.len() <= 0x1_0000_0000,
            vals == levels@.map_values(|v: u8| v as int),
            q == square_sum(vals.take(i as int)),
            q <= 65025 * i,
        decreases levels@.len() - i,
    {
        assert(vals.take(i + 1).drop_last() == vals.take(i as int));
        let v = levels[i] as u64;
        assert(v * v <= 65025) by (nonlinear_arith)
            requires
                v <= 255,
        ;
        q = q + v * v;
        i = i + 1;
    }
    assert(vals.take(i as int) == vals);
    q
}

/// A sequence whose values all equal `g` sums to `len · g`.
pub proof fn lemma_uniform_sum(s: Seq<int>, g: int)
    requires
        forall|k: int| 0 <= k < s.len() ==> s[k] == g,
    ensures
        sum(s) == s.len() * g,
    decreases s.len(),
{
    if s.len() > 0 {
        lemma_uniform_sum(s.drop_last(), g);
        assert((s.len() - 1) * g + g == s.len() * g) by (nonlinear_arith);
    }
}

} // verus!
