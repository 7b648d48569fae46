use vstd::prelude::*;

verus! {

// Numbers are IEEE-754 binary64 values, held as their 64-bit encodings.

pub const SIGN_BIT: u64 = 0x8000_0000_0000_0000;

/// The encoding of +0.0.
pub const ZERO: u64 = 0;

/// The encoding of 1.0.
pub const ONE: u64 = 0x3FF0_0000_0000_0000;

/// The largest magnitude that is not a NaN: the encoding of infinity.
pub const INFINITY: u64 = 0x7FF0_0000_0000_0000;

/// The encoding without its sign bit.
pub open spec fn magnitude(x: u64) -> int {
    if x >= SIGN_BIT {
        x - SIGN_BIT
    } else {
        x as int
    }
}

pub open spec fn is_nan(x: u64) -> bool {
    magnitude(x) > INFINITY
}

/// Orders the values that are not NaN as the reals they stand for, with
/// -0.0 and +0.0 equal.
pub open spec fn order_key(x: u64) -> int {
    if x >= SIGN_BIT {
        -magnitude(x)
    } else {
        magnitude(x)
    }
}

/// `a == b` on binary64 values.
pub open spec fn float_eq(a: u64, b: u64) -> bool {
    !is_nan(a) && !is_nan(b) && order_key(a) == order_key(b)
}

/// `a < b` on binary64 values.
pub open spec fn float_lt(a: u64, b: u64) -> bool {
    !is_nan(a) && !is_nan(b) && order_key(a) < order_key(b)
}

/// `x != 0.0`: true of every value but the two zeros, NaN included.
pub open spec fn nonzero(x: u64) -> bool {
    magnitude(x) != 0
}

pub fn is_nonzero(x: u64) -> (r: bool)
    ensures
        r == nonzero(x),
{
    x != ZERO && x != SIGN_BIT
}

fn key(x: u64) -> (r: (bool, u64))
    ensures
        r.1 == magnitude(x),
        r.0 == (x >= SIGN_BIT),
{
    if x >= SIGN_BIT {
        (true, x - SIGN_BIT)
    } else {
        (false, x)
    }
}

pub fn float_equal(a: u64, b: u64) -> (r: bool)
    ensures
        r == float_eq(a, b),
{
    let (na, ma) = key(a);
    let (nb, mb) = key(b);
    if ma > INFINITY || mb > INFINITY {
        false
    } else if ma == 0 && mb == 0 {
        true
    } else {
        na == nb && ma == mb
    }
}

pub fn float_less(a: u64, b: u64) -> (r: bool)
    ensures
        r == float_lt(a, b),
{
    let (na, ma) = key(a);
    let (nb, mb) = key(b);
    if ma > INFINITY || mb > INFINITY {
        false
    } else if na && nb {
        mb < ma
    } else if na {
        ma != 0 || mb != 0
    } else if nb {
        false
    } else {
        ma < mb
    }
}

} // verus!
