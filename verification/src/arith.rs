//! Exact integer arithmetic used by the rasterizer: full-width products of
//! 128-bit values, an integer square root, and the floor/ceiling of
//! `u / sqrt(s)` characterized without any floating point.

use vstd::prelude::*;

verus! {

/// 2^64, the limb base used to split 128-bit values.
pub const LIMB: u128 = 0x1_0000_0000_0000_0000;

/// The value of a 256-bit quantity held as two 128-bit halves.
pub open spec fn wide(hi: u128, lo: u128) -> int {
    hi as int * 0x1_0000_0000_0000_0000_0000_0000_0000_0000int + lo as int
}

/// The full 256-bit product of two 128-bit values, as (high, low) halves.
pub fn mul_wide(a: u128, b: u128) -> (r: (u128, u128))
    ensures
        wide(r.0, r.1) == a * b,
{
    let a1: u128 = a / LIMB;
    let a0: u128 = a % LIMB;
    let b1: u128 = b / LIMB;
    let b0: u128 = b % LIMB;
    proof {
        vstd::arithmetic::div_mod::lemma_fundamental_div_mod(a as int, LIMB as int);
        vstd::arithmetic::div_mod::lemma_fundamental_div_mod(b as int, LIMB as int);
        assert(a1 < LIMB && b1 < LIMB) by (nonlinear_arith)
            requires
                LIMB as int * a1 + a0 == a,
                LIMB as int * b1 + b0 == b,
                a0 >= 0,
                b0 >= 0,
                a1 >= 0,
                b1 >= 0,
                a < LIMB as int * LIMB as int,
                b < LIMB as int * LIMB as int,
                LIMB >= 1,
        {
            assert(a as int <= 0xffff_ffff_ffff_ffff_ffff_ffff_ffff_ffff);
            assert((LIMB as int) * (LIMB as int) == 0x1_0000_0000_0000_0000_0000_0000_0000_0000)
                by (nonlinear_arith);
        }
        assert(a0 * b0 <= (LIMB - 1) as int * (LIMB - 1) as int && a0 * b1 <= (LIMB - 1) as int
            * (LIMB - 1) as int && a1 * b0 <= (LIMB - 1) as int * (LIMB - 1) as int && a1 * b1 <= (
        LIMB - 1) as int * (LIMB - 1) as int) by (nonlinear_arith)
            requires
                0 <= a0 < LIMB,
                0 <= a1 < LIMB,
                0 <= b0 < LIMB,
                0 <= b1 < LIMB,
        ;
    }
    let p00: u128 = a0 * b0;
    let p01: u128 = a0 * b1;
    let p10: u128 = a1 * b0;
    let p11: u128 = a1 * b1;
    proof {
        vstd::arithmetic::div_mod::lemma_fundamental_div_mod(p00 as int, LIMB as int);
        vstd::arithmetic::div_mod::lemma_fundamental_div_mod(p01 as int, LIMB as int);
        vstd::arithmetic::div_mod::lemma_fundamental_div_mod(p10 as int, LIMB as int);
        assert(p00 / LIMB <= LIMB - 1 && p01 / LIMB <= LIMB - 2 && p10 / LIMB <= LIMB - 2)
            by (nonlinear_arith)
            requires
                LIMB as int * (p00 as int / LIMB as int) + p00 as int % LIMB as int == p00,
                LIMB as int * (p01 as int / LIMB as int) + p01 as int % LIMB as int == p01,
                LIMB as int * (p10 as int / LIMB as int) + p10 as int % LIMB as int == p10,
                p00 as int % LIMB as int >= 0,
                p01 as int % LIMB as int >= 0,
                p10 as int % LIMB as int >= 0,
                p00 as int / LIMB as int >= 0,
                p01 as int / LIMB as int >= 0,
                p10 as int / LIMB as int >= 0,
                p00 <= (LIMB - 1) as int * (LIMB - 1) as int,
                p01 <= (LIMB - 1) as int * (LIMB - 1) as int,
                p10 <= (LIMB - 1) as int * (LIMB - 1) as int,
                LIMB == 0x1_0000_0000_0000_0000,
        ;
    }
    let t1: u128 = p00 / LIMB + p01 % LIMB + p10 % LIMB;
    proof {
        vstd::arithmetic::div_mod::lemma_fundamental_div_mod(t1 as int, LIMB as int);
        assert(t1 / LIMB <= 2) by (nonlinear_arith)
            requires
                LIMB as int * (t1 as int / LIMB as int) + t1 as int % LIMB as int == t1,
                t1 as int % LIMB as int >= 0,
                t1 as int / LIMB as int >= 0,
                t1 <= 3 * (LIMB - 1) as int,
                LIMB == 0x1_0000_0000_0000_0000,
        ;
        assert((t1 % LIMB) * LIMB <= (LIMB - 1) as int * LIMB as int) by (nonlinear_arith)
            requires
                0 <= (t1 as int % (LIMB as int)),
                (t1 as int % (LIMB as int)) < LIMB as int,
                LIMB >= 1,
        ;
    }
    let lo: u128 = p00 % LIMB + (t1 % LIMB) * LIMB;
    proof {
        assert(p11 + p01 / LIMB + p10 / LIMB + t1 / LIMB <= (LIMB - 1) as int * (LIMB - 1) as int
            + (LIMB - 2) + (LIMB - 2) + 2);
        assert((LIMB - 1) as int * (LIMB - 1) as int + 2 * (LIMB as int) - 2 <= u128::MAX)
            by (nonlinear_arith);
    }
    let hi: u128 = p11 + p01 / LIMB + p10 / LIMB + t1 / LIMB;
    proof {
        let l: int = LIMB as int;
        let q00: int = p00 as int / l;
        let r00: int = p00 as int % l;
        let q01: int = p01 as int / l;
        let r01: int = p01 as int % l;
        let q10: int = p10 as int / l;
        let r10: int = p10 as int % l;
        let qt: int = t1 as int / l;
        let rt: int = t1 as int % l;
        assert(hi as int * 0x1_0000_0000_0000_0000_0000_0000_0000_0000 + lo as int == a as int
            * b as int) by (nonlinear_arith)
            requires
                l == 0x1_0000_0000_0000_0000,
                a == l * a1 + a0,
                b == l * b1 + b0,
                p00 == a0 * b0,
                p01 == a0 * b1,
                p10 == a1 * b0,
                p11 == a1 * b1,
                p00 == l * q00 + r00,
                p01 == l * q01 + r01,
                p10 == l * q10 + r10,
                t1 == q00 + r01 + r10,
                t1 == l * qt + rt,
                lo == r00 + rt * l,
                hi == p11 + q01 + q10 + qt,
        ;
    }
    (hi, lo)
}

/// The integer square root: the unique r with r^2 <= s < (r+1)^2.
pub fn isqrt(s: u128) -> (r: u64)
    ensures
        r as int * r as int <= s,
        s < (r as int + 1) * (r as int + 1),
{
    let mut lo: u128 = 0;
    let mut hi: u128 = LIMB;
    proof {
        assert(LIMB as int * LIMB as int > u128::MAX) by (nonlinear_arith);
    }
    while hi - lo > 1
        invariant
            lo < hi <= LIMB,
            lo as int * lo as int <= s,
            hi as int * hi as int > s,
        decreases hi - lo,
    {
        let mid: u128 = lo + (hi - lo) / 2;
        proof {
            assert(mid * mid <= (LIMB - 1) as int * (LIMB - 1) as int) by (nonlinear_arith)
                requires
                    0 <= mid < LIMB,
            ;
            assert((LIMB - 1) as int * (LIMB - 1) as int <= u128::MAX) by (nonlinear_arith);
        }
        if mid * mid <= s {
            lo = mid;
        } else {
            hi = mid;
        }
    }
    lo as u64
}

/// Whether q is the floor of u / sqrt(s), stated over squares only.
pub open spec fn is_ratio_floor(q: int, u: int, s: int) -> bool {
    0 <= q && q * q * s <= u * u && u * u < (q + 1) * (q + 1) * s
}

/// floor(u / sqrt(s)) for s >= 1 and u >= 0: the unique q whose square
/// times s does not exceed u^2, while (q+1)^2 * s does.
pub open spec fn ratio_floor(u: int, s: int) -> int {
    choose|q: int| is_ratio_floor(q, u, s)
}

/// ceil(u / sqrt(s)) for s >= 1 and u >= 0: the floor, plus one unless
/// u / sqrt(s) is exact.
pub open spec fn ratio_ceil(u: int, s: int) -> int {
    let q = ratio_floor(u, s);
    if q * q * s == u * u {
        q
    } else {
        q + 1
    }
}

/// A witness q satisfying the floor characterization is the floor.
pub proof fn lemma_ratio_floor_unique(u: int, s: int, q: int)
    requires
        s >= 1,
        is_ratio_floor(q, u, s),
    ensures
        ratio_floor(u, s) == q,
{
    assert(exists|k: int| is_ratio_floor(k, u, s));
    let p = ratio_floor(u, s);
    assert(is_ratio_floor(p, u, s));
    assert(p == q) by (nonlinear_arith)
        requires
            s >= 1,
            0 <= p,
            0 <= q,
            p * p * s <= u * u,
            u * u < (p + 1) * (p + 1) * s,
            q * q * s <= u * u,
            u * u < (q + 1) * (q + 1) * s,
    ;
}

/// Computes the floor of u / sqrt(s) by walking upward from a known lower
/// bound `from`; `bound` is any value whose square times s reaches u^2, so
/// the result never exceeds it.
pub fn ratio_floor_from(from: u64, bound: u64, s: u128, u: u128) -> (q: u64)
    requires
        s >= 1,
        from as int * from as int * s as int <= u as int * u as int,
        u as int * u as int <= bound as int * bound as int * s as int,
        from <= bound,
    ensures
        is_ratio_floor(q as int, u as int, s as int),
        from <= q <= bound,
{
    let mut q: u64 = from;
    let mut go: bool = if q < bound {
        sq_le(q as u128 + 1, s, u)
    } else {
        false
    };
    proof {
        if q >= bound {
            assert((q as int + 1) * (q as int + 1) * s as int > u as int * u as int)
                by (nonlinear_arith)
                requires
                    q == bound,
                    u as int * u as int <= bound as int * bound as int * s as int,
                    s >= 1,
                    q >= 0,
            ;
        }
    }
    while go
        invariant
            s >= 1,
            from <= q <= bound,
            q as int * q as int * s as int <= u as int * u as int,
            u as int * u as int <= bound as int * bound as int * s as int,
            go == ((q as int + 1) * (q as int + 1) * s as int <= u as int * u as int),
        decreases bound - q,
    {
        proof {
            assert(q as int + 1 <= bound) by (nonlinear_arith)
                requires
                    (q as int + 1) * (q as int + 1) * s as int <= u as int * u as int,
                    u as int * u as int <= bound as int * bound as int * s as int,
                    s >= 1,
                    q >= 0,
                    bound >= 0,
            ;
        }
        q = q + 1;
        go = if q < bound {
            sq_le(q as u128 + 1, s, u)
        } else {
            false
        };
        proof {
            if q >= bound {
                assert((q as int + 1) * (q as int + 1) * s as int > u as int * u as int)
                    by (nonlinear_arith)
                    requires
                        q == bound,
                        u as int * u as int <= bound as int * bound as int * s as int,
                        s >= 1,
                        q >= 0,
                ;
            }
        }
    }
    q
}

/// Whether v^2 * s <= w^2, decided exactly with 256-bit products.
pub fn sq_le(v: u128, s: u128, w: u128) -> (r: bool)
    requires
        v < LIMB,
    ensures
        r <==> v as int * v as int * s as int <= w as int * w as int,
{
    proof {
        assert(v * v <= (LIMB - 1) as int * (LIMB - 1) as int) by (nonlinear_arith)
            requires
                0 <= v < LIMB,
        ;
        assert((LIMB - 1) as int * (LIMB - 1) as int <= u128::MAX) by (nonlinear_arith);
    }
    let vv: u128 = v * v;
    let (ah, al) = mul_wide(vv, s);
    let (bh, bl) = mul_wide(w, w);
    proof {
        lemma_wide_cmp(ah, al, bh, bl);
        assert(vv as int * s as int == v as int * v as int * s as int) by (nonlinear_arith)
            requires
                vv == v as int * v as int,
        ;
    }
    ah < bh || (ah == bh && al <= bl)
}

/// Whether v^2 * s == w^2, decided exactly with 256-bit products.
pub fn sq_eq(v: u128, s: u128, w: u128) -> (r: bool)
    requires
        v < LIMB,
    ensures
        r <==> v as int * v as int * s as int == w as int * w as int,
{
    proof {
        assert(v * v <= (LIMB - 1) as int * (LIMB - 1) as int) by (nonlinear_arith)
            requires
                0 <= v < LIMB,
        ;
        assert((LIMB - 1) as int * (LIMB - 1) as int <= u128::MAX) by (nonlinear_arith);
    }
    let vv: u128 = v * v;
    let (ah, al) = mul_wide(vv, s);
    let (bh, bl) = mul_wide(w, w);
    proof {
        lemma_wide_cmp(ah, al, bh, bl);
        assert(vv as int * s as int == v as int * v as int * s as int) by (nonlinear_arith)
            requires
                vv == v as int * v as int,
        ;
    }
    ah == bh && al == bl
}

/// Ordering two 256-bit values follows the lexicographic order of their
/// halves.
proof fn lemma_wide_cmp(ah: u128, al: u128, bh: u128, bl: u128)
    ensures
        wide(ah, al) <= wide(bh, bl) <==> (ah < bh || (ah == bh && al <= bl)),
        wide(ah, al) == wide(bh, bl) <==> (ah == bh && al == bl),
{
    let base: int = 0x1_0000_0000_0000_0000_0000_0000_0000_0000int;
    assert(wide(ah, al) == ah * base + al);
    assert(wide(bh, bl) == bh * base + bl);
    if ah < bh {
        assert(ah * base + base <= bh * base) by (nonlinear_arith)
            requires
                ah < bh,
                base >= 1,
        ;
    } else if ah > bh {
        assert(bh * base + base <= ah * base) by (nonlinear_arith)
            requires
                bh < ah,
                base >= 1,
        ;
    }
}

} // verus!
