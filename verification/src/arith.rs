//! Whole-number division as machines do it.
use vstd::arithmetic::div_mod::lemma_fundamental_div_mod_converse_mod;
use vstd::prelude::*;

verus! {

/// The quotient of `a` and `b`, rounded toward zero.
pub open spec fn quotient(a: int, b: int) -> int {
    if a >= 0 {
        if b > 0 {
            a / b
        } else {
            -(a / -b)
        }
    } else {
        if b > 0 {
            -(-a / b)
        } else {
            -a / -b
        }
    }
}

/// The quotient of `a` and `b`, rounded toward zero.
pub fn divide(a: i64, b: i64) -> (r: i64)
    requires
        b != 0,
        a != i64::MIN || b != -1,
    ensures
        r == quotient(a as int, b as int),
{
    let x: u128 = if a >= 0 {
        a as u128
    } else {
        (-(a as i128)) as u128
    };
    let y: u128 = if b >= 0 {
        b as u128
    } else {
        (-(b as i128)) as u128
    };
    let q: u128 = x / y;
    assert(q <= x) by (nonlinear_arith)
        requires
            y >= 1,
            q == x / y,
    ;
    assert(y >= 2 ==> q <= x / 2) by (nonlinear_arith)
        requires
            y >= 1,
            q == x / y,
    ;
    if (a >= 0) == (b >= 0) {
        q as i64
    } else {
        (-(q as i128)) as i64
    }
}

/// The remainder of `a` and `n` that has the sign of `n`.
pub open spec fn remainder(a: int, n: int) -> int {
    if n > 0 {
        a % n
    } else {
        -((-a) % (-n))
    }
}

/// The remainder of `a` and `n` that has the sign of `n`.
pub fn fold(a: i64, n: i64) -> (r: i64)
    requires
        n != 0,
    ensures
        r == remainder(a as int, n as int),
{
    let (x, m): (i128, i128) = if n > 0 {
        (a as i128, n as i128)
    } else {
        (-(a as i128), -(n as i128))
    };
    let r: i128 = if x >= 0 {
        ((x as u128) % (m as u128)) as i128
    } else {
        let y: i128 = ((-x) as u128 % (m as u128)) as i128;
        proof {
            let q = (-x) / m as int;
            assert(-x == q * m + y) by (nonlinear_arith)
                requires
                    m > 0,
                    q == (-x) / m as int,
                    y == (-x) % (m as int),
            ;
            if y == 0 {
                assert(x == (-q) * m) by (nonlinear_arith)
                    requires
                        -x == q * m,
                ;
                lemma_fundamental_div_mod_converse_mod(x as int, m as int, -q, 0);
            } else {
                assert(x == (-q - 1) * m + (m - y)) by (nonlinear_arith)
                    requires
                        -x == q * m + y,
                ;
                lemma_fundamental_div_mod_converse_mod(x as int, m as int, -q - 1, m - y);
            }
        }
        if y == 0 {
            0
        } else {
            m - y
        }
    };
    if n > 0 {
        r as i64
    } else {
        (-r) as i64
    }
}

} // verus!
