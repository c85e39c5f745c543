//! The order of IEEE 754 numbers, decided on their bit patterns.

use vstd::arithmetic::div_mod::lemma_fundamental_div_mod;
use vstd::arithmetic::power2::{
    lemma_pow2_pos, lemma_pow2_strictly_increases, lemma_pow2_unfold,
};
use vstd::prelude::*;

verus! {

/// Where a single-precision number stands in the order of all of them: its
/// magnitude bits, counted down from zero where the sign bit is set. A pattern
/// that is not a number has no place.
pub open spec fn place32(bits: u32) -> Option<int> {
    let magnitude = bits % 0x8000_0000;
    if magnitude > 0x7f80_0000 {
        None
    } else if bits >= 0x8000_0000 {
        Some(-(magnitude as int))
    } else {
        Some(magnitude as int)
    }
}

/// Where a double-precision number stands in the order of all of them.
pub open spec fn place64(bits: u64) -> Option<int> {
    let magnitude = bits % 0x8000_0000_0000_0000;
    if magnitude > 0x7ff0_0000_0000_0000 {
        None
    } else if bits >= 0x8000_0000_0000_0000 {
        Some(-(magnitude as int))
    } else {
        Some(magnitude as int)
    }
}

/// Both are numbers, and the first is the smaller one.
pub open spec fn below(a: Option<int>, b: Option<int>) -> bool {
    a is Some && b is Some && a->0 < b->0
}

/// Whether the single-precision number `a` is less than `b`.
pub fn less32(a: u32, b: u32) -> (r: bool)
    ensures
        r == below(place32(a), place32(b)),
{
    let x = a % 0x8000_0000;
    let y = b % 0x8000_0000;
    if x > 0x7f80_0000 || y > 0x7f80_0000 {
        return false;
    }
    if a >= 0x8000_0000 {
        if b >= 0x8000_0000 {
            y < x
        } else {
            x > 0 || y > 0
        }
    } else {
        b < 0x8000_0000 && x < y
    }
}

/// Whether the single-precision number `a` is at least `b`.
pub fn at_least32(a: u32, b: u32) -> (r: bool)
    ensures
        r == (place32(a) is Some && place32(b) is Some && place32(a)->0 >= place32(b)->0),
{
    a % 0x8000_0000 <= 0x7f80_0000 && b % 0x8000_0000 <= 0x7f80_0000 && !less32(a, b)
}

/// Whether the double-precision number `a` is less than `b`.
pub fn less64(a: u64, b: u64) -> (r: bool)
    ensures
        r == below(place64(a), place64(b)),
{
    let x = a % 0x8000_0000_0000_0000;
    let y = b % 0x8000_0000_0000_0000;
    if x > 0x7ff0_0000_0000_0000 || y > 0x7ff0_0000_0000_0000 {
        return false;
    }
    if a >= 0x8000_0000_0000_0000 {
        if b >= 0x8000_0000_0000_0000 {
            y < x
        } else {
            x > 0 || y > 0
        }
    } else {
        b < 0x8000_0000_0000_0000 && x < y
    }
}

/// What a finite single-precision number is worth, as a multiple of the smallest
/// positive one: the fraction with its leading bit, shifted by the exponent.
pub open spec fn worth32(bits: u32) -> int {
    let fraction = (bits % 0x80_0000) as int;
    let exponent = (bits / 0x80_0000) % 0x100;
    let size = if exponent == 0 {
        fraction
    } else {
        (0x80_0000 + fraction) * vstd::arithmetic::power2::pow2((exponent - 1) as nat)
    };
    if bits >= 0x8000_0000 {
        -size
    } else {
        size
    }
}

/// What a finite double-precision number is worth, as a multiple of the smallest
/// positive one.
pub open spec fn worth64(bits: u64) -> int {
    let fraction = (bits % 0x10_0000_0000_0000) as int;
    let exponent = (bits / 0x10_0000_0000_0000) % 0x800;
    let size = if exponent == 0 {
        fraction
    } else {
        (0x10_0000_0000_0000 + fraction) * vstd::arithmetic::power2::pow2((exponent - 1) as nat)
    };
    if bits >= 0x8000_0000_0000_0000 {
        -size
    } else {
        size
    }
}

/// The size of a number whose bits without the sign are `m`, `top` being the
/// leading bit of a fraction.
spec fn size_of_bits(m: int, top: int) -> int {
    if m / top == 0 {
        m % top
    } else {
        (top + m % top) * vstd::arithmetic::power2::pow2((m / top - 1) as nat)
    }
}

proof fn lemma_size_grows(a: int, b: int, top: int)
    requires
        top > 0,
        0 <= a < b,
    ensures
        0 <= size_of_bits(a, top) < size_of_bits(b, top),
{
    let (x, y) = (a / top, b / top);
    let (f, g) = (a % top, b % top);
    lemma_fundamental_div_mod(a, top);
    lemma_fundamental_div_mod(b, top);
    assert(x <= y) by (nonlinear_arith)
        requires
            a == top * x + f,
            b == top * y + g,
            a < b,
            0 <= f < top,
            0 <= g < top,
            top > 0,
    ;
    assert(x >= 0) by (nonlinear_arith)
        requires
            a == top * x + f,
            0 <= a,
            f < top,
            top > 0,
    ;
    if x == y {
        assert(f < g);
        if x > 0 {
            let p = vstd::arithmetic::power2::pow2((x - 1) as nat) as int;
            lemma_pow2_pos((x - 1) as nat);
            assert((top + f) * p < (top + g) * p) by (nonlinear_arith)
                requires
                    f < g,
                    p > 0,
            ;
            assert(0 <= (top + f) * p) by (nonlinear_arith)
                requires
                    0 <= f,
                    0 < top,
                    p > 0,
            ;
        }
    } else {
        let q = vstd::arithmetic::power2::pow2((y - 1) as nat) as int;
        lemma_pow2_pos((y - 1) as nat);
        assert((top + g) * q >= top * q) by (nonlinear_arith)
            requires
                g >= 0,
                q > 0,
        ;
        if x == 0 {
            assert(top * q >= top) by (nonlinear_arith)
                requires
                    q >= 1,
                    top > 0,
            ;
        } else {
            let p = vstd::arithmetic::power2::pow2((x - 1) as nat) as int;
            lemma_pow2_pos((x - 1) as nat);
            lemma_pow2_unfold(x as nat);
            if x < y - 1 {
                lemma_pow2_strictly_increases(x as nat, (y - 1) as nat);
            }
            assert(2 * p <= q);
            assert(0 <= (top + f) * p < top * q) by (nonlinear_arith)
                requires
                    0 <= f < top,
                    2 * p <= q,
                    p > 0,
            ;
        }
    }
}

/// Of two finite numbers the one that is worth less is the smaller one; an
/// infinite number is smaller or larger than all finite ones, as its sign says;
/// what is not a number is neither smaller nor larger than anything.
pub proof fn law_single_numbers_are_in_order(a: u32, b: u32)
    ensures
        a % 0x8000_0000 < 0x7f80_0000 && b % 0x8000_0000 < 0x7f80_0000 ==> (below(
            place32(a),
            place32(b),
        ) <==> worth32(a) < worth32(b)),
        a % 0x8000_0000 < 0x7f80_0000 ==> below(place32(a), place32(0x7f80_0000)) && below(
            place32(0xff80_0000),
            place32(a),
        ),
        a % 0x8000_0000 > 0x7f80_0000 ==> !below(place32(a), place32(b)) && !below(
            place32(b),
            place32(a),
        ),
{
    let top: int = 0x80_0000;
    let (m, n) = ((a % 0x8000_0000) as int, (b % 0x8000_0000) as int);
    assert(m / top == (a / 0x80_0000) % 0x100 && m % top == a % 0x80_0000);
    assert(n / top == (b / 0x80_0000) % 0x100 && n % top == b % 0x80_0000);
    assert(size_of_bits(m, top) == if a >= 0x8000_0000 {
        -worth32(a)
    } else {
        worth32(a)
    });
    assert(size_of_bits(n, top) == if b >= 0x8000_0000 {
        -worth32(b)
    } else {
        worth32(b)
    });
    assert(size_of_bits(0, top) == 0);
    if m < n {
        lemma_size_grows(m, n, top);
    }
    if n < m {
        lemma_size_grows(n, m, top);
    }
    if 0 < m {
        lemma_size_grows(0, m, top);
    }
    if 0 < n {
        lemma_size_grows(0, n, top);
    }
}

/// Of two finite numbers the one that is worth less is the smaller one; an
/// infinite number is smaller or larger than all finite ones, as its sign says;
/// what is not a number is neither smaller nor larger than anything.
pub proof fn law_double_numbers_are_in_order(a: u64, b: u64)
    ensures
        a % 0x8000_0000_0000_0000 < 0x7ff0_0000_0000_0000 && b % 0x8000_0000_0000_0000
            < 0x7ff0_0000_0000_0000 ==> (below(place64(a), place64(b)) <==> worth64(a) < worth64(
            b,
        )),
        a % 0x8000_0000_0000_0000 < 0x7ff0_0000_0000_0000 ==> below(
            place64(a),
            place64(0x7ff0_0000_0000_0000),
        ) && below(place64(0xfff0_0000_0000_0000), place64(a)),
        a % 0x8000_0000_0000_0000 > 0x7ff0_0000_0000_0000 ==> !below(place64(a), place64(b))
            && !below(place64(b), place64(a)),
{
    let top: int = 0x10_0000_0000_0000;
    let (m, n) = ((a % 0x8000_0000_0000_0000) as int, (b % 0x8000_0000_0000_0000) as int);
    assert(m / top == (a / 0x10_0000_0000_0000) % 0x800 && m % top == a % 0x10_0000_0000_0000);
    assert(n / top == (b / 0x10_0000_0000_0000) % 0x800 && n % top == b % 0x10_0000_0000_0000);
    assert(size_of_bits(m, top) == if a >= 0x8000_0000_0000_0000 {
        -worth64(a)
    } else {
        worth64(a)
    });
    assert(size_of_bits(n, top) == if b >= 0x8000_0000_0000_0000 {
        -worth64(b)
    } else {
        worth64(b)
    });
    assert(size_of_bits(0, top) == 0);
    if m < n {
        lemma_size_grows(m, n, top);
    }
    if n < m {
        lemma_size_grows(n, m, top);
    }
    if 0 < m {
        lemma_size_grows(0, m, top);
    }
    if 0 < n {
        lemma_size_grows(0, n, top);
    }
}

} // verus!
