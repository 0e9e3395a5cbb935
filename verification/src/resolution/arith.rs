//! Integer arithmetic that the model rests on: products that cannot
//! overflow, quotients rounded down, and ratios compared without division.

use vstd::prelude::*;

verus! {

/// The product of two machine integers, which always fits in 128 bits.
pub fn wide_product(a: isize, b: isize) -> (p: i128)
    ensures
        p == a * b,
        -0x4000_0000_0000_0000_0000_0000_0000_0000 <= p <= 0x4000_0000_0000_0000_0000_0000_0000_0000,
{
    assert(-0x4000_0000_0000_0000_0000_0000_0000_0000 <= a * b
        <= 0x4000_0000_0000_0000_0000_0000_0000_0000) by (nonlinear_arith)
        requires
            -0x8000_0000_0000_0000 <= a <= 0x7fff_ffff_ffff_ffff,
            -0x8000_0000_0000_0000 <= b <= 0x7fff_ffff_ffff_ffff,
    ;
    (a as i128) * (b as i128)
}

/// The quotient of `a` by a positive `w`, rounded down.
pub fn floor_quotient(a: i128, w: i128) -> (q: i128)
    requires
        w > 0,
        a > i128::MIN,
    ensures
        q == a as int / w as int,
{
    if a >= 0 {
        a / w
    } else {
        let m: i128 = -a;
        let q0: i128 = m / w;
        let r0: i128 = m % w;
        assert(m as int == (w as int) * (q0 as int) + r0 as int) by {
            vstd::arithmetic::div_mod::lemma_fundamental_div_mod(m as int, w as int);
        }
        if r0 == 0 {
            assert(a as int == (w as int) * (-(q0 as int))) by (nonlinear_arith)
                requires
                    m as int == (w as int) * (q0 as int),
                    a as int == -(m as int),
            ;
            assert(a as int / w as int == -(q0 as int)) by {
                vstd::arithmetic::div_mod::lemma_fundamental_div_mod_converse(
                    a as int,
                    w as int,
                    -(q0 as int),
                    0,
                );
            }
            -q0
        } else {
            assert(a as int == (w as int) * (-(q0 as int) - 1) + (w as int - r0 as int))
                by (nonlinear_arith)
                requires
                    m as int == (w as int) * (q0 as int) + r0 as int,
                    a as int == -(m as int),
            ;
            assert(a as int / w as int == -(q0 as int) - 1) by {
                vstd::arithmetic::div_mod::lemma_fundamental_div_mod_converse(
                    a as int,
                    w as int,
                    -(q0 as int) - 1,
                    w as int - r0 as int,
                );
            }
            -q0 - 1
        }
    }
}

/// Ratios compared by cross-multiplication chain: from `pa/wa >= pb/wb` and
/// `pb/wb >= pc/wc` follows `pa/wa >= pc/wc`, strictly if either is strict.
pub proof fn lemma_ratio_chain(pa: int, wa: int, pb: int, wb: int, pc: int, wc: int)
    requires
        wa > 0,
        wb > 0,
        wc > 0,
        pa * wb >= pb * wa,
        pb * wc >= pc * wb,
    ensures
        pa * wc >= pc * wa,
        (pa * wb > pb * wa || pb * wc > pc * wb) ==> pa * wc > pc * wa,
{
    assert((pa * wb) * wc >= (pb * wa) * wc) by (nonlinear_arith)
        requires
            pa * wb >= pb * wa,
            wc > 0,
    ;
    assert((pb * wc) * wa >= (pc * wb) * wa) by (nonlinear_arith)
        requires
            pb * wc >= pc * wb,
            wa > 0,
    ;
    assert((pa * wb) * wc == (pa * wc) * wb) by (nonlinear_arith);
    assert((pb * wa) * wc == (pb * wc) * wa) by (nonlinear_arith);
    assert((pc * wb) * wa == (pc * wa) * wb) by (nonlinear_arith);
    assert(pa * wc >= pc * wa) by (nonlinear_arith)
        requires
            (pa * wc) * wb >= (pc * wa) * wb,
            wb > 0,
    ;
    if pa * wb > pb * wa {
        assert((pa * wb) * wc > (pb * wa) * wc) by (nonlinear_arith)
            requires
                pa * wb > pb * wa,
                wc > 0,
        ;
        assert(pa * wc > pc * wa) by (nonlinear_arith)
            requires
                (pa * wc) * wb > (pc * wa) * wb,
                wb > 0,
        ;
    }
    if pb * wc > pc * wb {
        assert((pb * wc) * wa > (pc * wb) * wa) by (nonlinear_arith)
            requires
                pb * wc > pc * wb,
                wa > 0,
        ;
        assert(pa * wc > pc * wa) by (nonlinear_arith)
            requires
                (pa * wc) * wb > (pc * wa) * wb,
                wb > 0,
        ;
    }
}

/// An integer whose multiple by `w` does not exceed `y` does not exceed the
/// quotient of `y` by `w`, rounded down.
pub proof fn lemma_floor_quotient(x: int, y: int, w: int)
    requires
        w > 0,
        x * w <= y,
    ensures
        x <= y / w,
{
    vstd::arithmetic::div_mod::lemma_fundamental_div_mod(y, w);
    let q = y / w;
    let r = y % w;
    assert(0 <= r < w) by {
        vstd::arithmetic::div_mod::lemma_mod_bound(y, w);
    }
    assert(x < q + 1) by (nonlinear_arith)
        requires
            x * w <= y,
            y == w * q + r,
            0 <= r < w,
            w > 0,
    ;
}

/// The share of a profit `p` that `c` of the `w` units of an item pay for
/// lies between zero and `p`.
pub proof fn lemma_share_within_profit(c: int, p: int, w: int)
    requires
        0 < c < w,
    ensures
        p >= 0 ==> 0 <= (c * p) / w <= p,
        p < 0 ==> p <= (c * p) / w < 0,
{
    let y = c * p;
    let q = y / w;
    let r = y % w;
    vstd::arithmetic::div_mod::lemma_fundamental_div_mod(y, w);
    vstd::arithmetic::div_mod::lemma_mod_bound(y, w);
    if p >= 0 {
        assert(0 <= y <= p * w) by (nonlinear_arith)
            requires
                y == c * p,
                0 < c < w,
                p >= 0,
        ;
        assert(0 <= q <= p) by (nonlinear_arith)
            requires
                0 <= y <= p * w,
                y == w * q + r,
                0 <= r < w,
        ;
    } else {
        assert(p * w <= y < 0) by (nonlinear_arith)
            requires
                y == c * p,
                0 < c < w,
                p < 0,
        ;
        assert(p <= q < 0) by (nonlinear_arith)
            requires
                p * w <= y < 0,
                y == w * q + r,
                0 <= r < w,
        ;
    }
}

} // verus!
