use vstd::prelude::*;

verus! {

/// `n` is a power of two (1, 2, 4, ...).
pub open spec fn is_pow2(n: nat) -> bool
    decreases n,
{
    if n == 0 {
        false
    } else if n == 1 {
        true
    } else {
        n % 2 == 0 && is_pow2(n / 2)
    }
}

/// The smallest power of two that is at least `x` (1 for `x <= 1`).
pub open spec fn next_pow2(x: nat) -> nat
    decreases x,
{
    if x <= 1 {
        1
    } else {
        2 * next_pow2(((x + 1) / 2) as nat)
    }
}

/// The largest `r <= k` with `r * r <= v`.
pub open spec fn isqrt_below(v: nat, k: nat) -> nat
    decreases k,
{
    if k * k <= v || k == 0 {
        k
    } else {
        isqrt_below(v, (k - 1) as nat)
    }
}

/// Integer square root, rounded down.
pub open spec fn isqrt(v: nat) -> nat {
    isqrt_below(v, v)
}

proof fn lemma_pow2_double(p: nat)
    requires
        is_pow2(p),
    ensures
        is_pow2(2 * p),
{
    assert((2 * p) / 2 == p);
}

proof fn lemma_pow2_odd(p: nat)
    requires
        is_pow2(p),
        p % 2 == 1,
    ensures
        p == 1,
{
}

/// The values that `next_pow2` is defined to pick.
pub proof fn lemma_next_pow2_bounds(x: nat)
    requires
        x >= 1,
    ensures
        is_pow2(next_pow2(x)),
        x <= next_pow2(x),
        next_pow2(x) < 2 * x,
    decreases x,
{
    if x > 1 {
        let h = ((x + 1) / 2) as nat;
        lemma_next_pow2_bounds(h);
        lemma_pow2_double(next_pow2(h));
        if next_pow2(h) % 2 == 1 {
            lemma_pow2_odd(next_pow2(h));
        }
    }
}

/// Two powers of two `a <= b < 2a` are equal.
proof fn lemma_pow2_unique(a: nat, b: nat)
    requires
        is_pow2(a),
        is_pow2(b),
        a <= b,
        b < 2 * a,
    ensures
        a == b,
    decreases a,
{
    if a > 1 {
        lemma_pow2_unique((a / 2) as nat, (b / 2) as nat);
    }
}

/// A power of two `r` with `x <= r < 2x` is `next_pow2(x)`.
pub proof fn lemma_next_pow2_unique(x: nat, r: nat)
    requires
        x >= 1,
        is_pow2(r),
        x <= r,
        r < 2 * x,
    ensures
        r == next_pow2(x),
{
    lemma_next_pow2_bounds(x);
    if r <= next_pow2(x) {
        lemma_pow2_unique(r, next_pow2(x));
    } else {
        lemma_pow2_unique(next_pow2(x), r);
    }
}

/// Rounding up to a power of two: the result is a power of two, is at least
/// the input, and a power of two is left as it is.
pub proof fn lemma_next_pow2_law(x: nat)
    requires
        x >= 1,
    ensures
        is_pow2(next_pow2(x)),
        next_pow2(x) >= x,
        is_pow2(x) ==> next_pow2(x) == x,
{
    lemma_next_pow2_bounds(x);
    if is_pow2(x) {
        lemma_next_pow2_unique(x, x);
    }
}

/// Rounds `x` up to the nearest power of two.
pub fn get_nearest_po2(x: u32) -> (r: u32)
    requires
        0 < x <= 0x8000_0000,
    ensures
        r == next_pow2(x as nat),
{
    let mut p: u32 = 1;
    while p < x
        invariant
            0 < x <= 0x8000_0000,
            is_pow2(p as nat),
            1 <= p < 2 * x,
        decreases 0x1_0000_0000 - p,
    {
        proof {
            lemma_pow2_double(p as nat);
        }
        p = p * 2;
    }
    proof {
        lemma_next_pow2_unique(x as nat, p as nat);
    }
    p
}

/// An `r` with `r * r <= v < (r + 1) * (r + 1)` is `isqrt(v)`.
proof fn lemma_isqrt_unique(v: nat, r: nat, k: nat)
    requires
        r * r <= v < (r + 1) * (r + 1),
        r <= k,
    ensures
        isqrt_below(v, k) == r,
    decreases k,
{
    if k > r {
        assert(k * k >= (r + 1) * (r + 1)) by (nonlinear_arith)
            requires
                k >= r + 1,
        ;
        lemma_isqrt_unique(v, r, (k - 1) as nat);
    }
}

/// Square root of `v`, rounded down.
pub fn int_sqrt(v: u128) -> (r: u128)
    ensures
        r == isqrt(v as nat),
        r * r <= v,
        v < (r + 1) * (r + 1),
{
    let mut lo: u128 = 0;
    let mut hi: u128 = 0x1_0000_0000_0000_0000;
    assert(v < hi * hi) by (nonlinear_arith)
        requires
            hi == 0x1_0000_0000_0000_0000u128,
            v <= u128::MAX,
    ;
    while lo + 1 < hi
        invariant
            lo < hi <= 0x1_0000_0000_0000_0000,
            lo * lo <= v,
            v < hi * hi,
        decreases hi - lo,
    {
        let mid: u128 = lo + (hi - lo) / 2;
        assert(mid * mid < 0x1_0000_0000_0000_0000 * 0x1_0000_0000_0000_0000) by (nonlinear_arith)
            requires
                mid < 0x1_0000_0000_0000_0000,
        ;
        if mid * mid <= v {
            lo = mid;
        } else {
            hi = mid;
        }
    }
    proof {
        assert(lo <= v) by (nonlinear_arith)
            requires
                lo * lo <= v,
        ;
        lemma_isqrt_unique(v as nat, lo as nat, v as nat);
    }
    lo
}

} // verus!
