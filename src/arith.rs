use vstd::prelude::*;

verus! {

/// The number of whole blocks of size `b` needed to cover `a` units,
/// for `a >= 0` and `b > 0`.
pub open spec fn ceil_div(a: int, b: int) -> int {
    (a + b - 1) / b
}

/// An index lies below the covering count exactly when that many blocks
/// fall short of `a`.
pub proof fn lemma_below_ceil_div(a: int, b: int, i: int)
    requires
        a >= 0,
        b > 0,
        i >= 0,
    ensures
        i < ceil_div(a, b) <==> i * b < a,
        ceil_div(a, b) >= 0,
{
    let c = (a + b - 1) / b;
    let r = (a + b - 1) % b;
    vstd::arithmetic::div_mod::lemma_fundamental_div_mod(a + b - 1, b);
    assert(0 <= r < b);
    assert(a + b - 1 == b * c + r);
    if i < c {
        assert(i * b <= (c - 1) * b) by (nonlinear_arith)
            requires
                i <= c - 1,
                b > 0,
        ;
        assert((c - 1) * b == b * c - b) by (nonlinear_arith);
    } else {
        assert(i * b >= c * b) by (nonlinear_arith)
            requires
                i >= c,
                b > 0,
        ;
        assert(c * b == b * c) by (nonlinear_arith);
    }
    assert(c >= 0) by (nonlinear_arith)
        requires
            a + b - 1 >= 0,
            b > 0,
            c == (a + b - 1) / b,
    ;
}

/// Covering one more unit adds a block exactly when the units so far fill
/// whole blocks.
pub proof fn lemma_ceil_div_step(k: int, e: int)
    requires
        k >= 0,
        e > 0,
    ensures
        ceil_div(k + 1, e) == ceil_div(k, e) + (if k % e == 0 {
            1int
        } else {
            0int
        }),
        k % e == 0 ==> ceil_div(k, e) * e == k,
{
    let q = k / e;
    let r = k % e;
    vstd::arithmetic::div_mod::lemma_fundamental_div_mod(k, e);
    assert(0 <= r < e);
    assert(k == q * e + r) by (nonlinear_arith)
        requires
            k == e * q + r,
    ;
    assert((q + 1) * e == q * e + e) by (nonlinear_arith);
    assert((q - 1) * e == q * e - e) by (nonlinear_arith);
    assert(q >= 0) by (nonlinear_arith)
        requires
            k >= 0,
            e > 0,
            q == k / e,
    ;
    lemma_below_ceil_div(k, e, q);
    lemma_below_ceil_div(k, e, q + 1);
    lemma_below_ceil_div(k + 1, e, q);
    lemma_below_ceil_div(k + 1, e, q + 1);
    if q > 0 {
        lemma_below_ceil_div(k, e, q - 1);
    }
}

} // verus!
