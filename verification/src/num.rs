use vstd::prelude::*;

verus! {

/// Integer division as Rust computes it on signed integers: the quotient is
/// rounded toward zero.
pub open spec fn trunc_div(a: int, b: int) -> int {
    let q = abs(a) / abs(b);
    if (a >= 0) == (b > 0) || a == 0 {
        q
    } else {
        -q
    }
}

/// The remainder that goes with `trunc_div`: it has the sign of `a`.
pub open spec fn trunc_rem(a: int, b: int) -> int {
    a - b * trunc_div(a, b)
}

pub open spec fn abs(a: int) -> int {
    if a < 0 {
        -a
    } else {
        a
    }
}

pub open spec fn fits_i32(x: int) -> bool {
    i32::MIN <= x <= i32::MAX
}

pub open spec fn fits_i16(x: int) -> bool {
    i16::MIN <= x <= i16::MAX
}

fn abs_u32(a: i32) -> (r: u32)
    ensures
        r as int == abs(a as int),
{
    if a >= 0 {
        a as u32
    } else if a == i32::MIN {
        2147483648u32
    } else {
        (-a) as u32
    }
}

/// Signed division of two `i32`, with the rounding toward zero that Rust uses.
pub fn div_i32(a: i32, b: i32) -> (q: i32)
    requires
        b != 0,
        !(a == i32::MIN && b == -1),
    ensures
        q == trunc_div(a as int, b as int),
{
    let ua = abs_u32(a);
    let ub = abs_u32(b);
    let uq = ua / ub;
    assert(uq <= ua) by (nonlinear_arith)
        requires
            ub >= 1,
            uq == ua / ub,
    ;
    if (a >= 0) == (b > 0) || a == 0 {
        if uq == 2147483648u32 {
            assert(ua == 2147483648u32 && ub == 1) by (nonlinear_arith)
                requires
                    ub >= 1,
                    uq == ua / ub,
                    ua <= 2147483648u32,
                    uq == 2147483648u32,
            ;
        }
        uq as i32
    } else {
        if uq == 2147483648u32 {
            (i32::MIN)
        } else {
            -(uq as i32)
        }
    }
}

/// Signed remainder of two `i32`, with the sign of the dividend.
pub fn rem_i32(a: i32, b: i32) -> (r: i32)
    requires
        b != 0,
        !(a == i32::MIN && b == -1),
    ensures
        r == trunc_rem(a as int, b as int),
{
    let q = div_i32(a, b);
    let ua = abs_u32(a);
    let ub = abs_u32(b);
    let uq = ua / ub;
    let ur = ua % ub;
    assert(ua == uq * ub + ur && ur < ub) by (nonlinear_arith)
        requires
            ub >= 1,
            uq == ua / ub,
            ur == ua % ub,
    ;
    let r: i32 = if a >= 0 {
        ur as i32
    } else {
        -(ur as i32)
    };
    assert(r == a - b * q) by (nonlinear_arith)
        requires
            ua == uq * ub + ur,
            ua as int == abs(a as int),
            ub as int == abs(b as int),
            uq as int == abs(a as int) / abs(b as int),
            q as int == trunc_div(a as int, b as int),
            r == (if a >= 0 { ur as int } else { -(ur as int) }),
    ;
    r
}

} // verus!
