//! Integers of fixed width.
//!
//! A number that does not fit its type is not rejected: it is reduced as a
//! conversion between the machine's integer types reduces it, to the value
//! of its low bits.
use vstd::prelude::*;
use vstd::arithmetic::div_mod::{
    lemma_add_mod_noop,
    lemma_fundamental_div_mod,
    lemma_fundamental_div_mod_converse_mod,
    lemma_mod_mod,
    lemma_mod_sub_multiples_vanish,
    lemma_mod_twice,
    lemma_mul_mod_noop_left,
    lemma_small_mod,
    lemma_sub_mod_noop_right,
};

verus! {

/// The number of values of a 64-bit integer.
pub const WORD: u128 = 0x1_0000_0000_0000_0000;

/// The number of values of a 64-bit integer.
pub open spec fn word() -> int {
    WORD as int
}

/// The value that `x` takes in an unsigned integer type with `modulus`
/// values.
pub open spec fn wrap_unsigned(x: int, modulus: int) -> int {
    x % modulus
}

/// The value that `x` takes in a two's complement integer type with
/// `modulus` values.
pub open spec fn wrap_signed(x: int, modulus: int) -> int {
    if 2 * (x % modulus) >= modulus {
        x % modulus - modulus
    } else {
        x % modulus
    }
}

/// The widths of the machine's integer types.
#[derive(Clone, Copy, Debug, PartialEq, Eq)]
pub enum Width {
    /// `u8` and `i8`.
    Bits8,
    /// `u16` and `i16`.
    Bits16,
    /// `u32` and `i32`.
    Bits32,
    /// `u64` and `i64`.
    Bits64,
    /// `usize` and `isize`.
    Pointer,
}

impl Width {
    /// The number of values of an integer type of this width.
    pub open spec fn modulus(self) -> int {
        match self {
            Width::Bits8 => 0x100,
            Width::Bits16 => 0x1_0000,
            Width::Bits32 => 0x1_0000_0000,
            Width::Bits64 => word(),
            Width::Pointer => usize::MAX + 1,
        }
    }

    /// The number of values of an integer type of this width.
    pub fn values(self) -> (m: u128)
        ensures
            m == self.modulus(),
    {
        match self {
            Width::Bits8 => 0x100,
            Width::Bits16 => 0x1_0000,
            Width::Bits32 => 0x1_0000_0000,
            Width::Bits64 => WORD,
            Width::Pointer => usize::MAX as u128 + 1,
        }
    }
}

/// Whether an integer type of 8, 16, 32 or 64 bits has `modulus` values.
pub open spec fn is_width(modulus: int) -> bool {
    modulus == 0x100 || modulus == 0x1_0000 || modulus == 0x1_0000_0000 || modulus == word()
}

/// Every width is one of 8, 16, 32 and 64 bits.
pub proof fn lemma_width(width: Width)
    ensures
        is_width(width.modulus()),
{
}

/// Reducing to 64 bits first does not change what a narrower type holds.
pub proof fn lemma_wrap_twice(x: int, modulus: int)
    requires
        is_width(modulus),
    ensures
        wrap_unsigned(x, modulus) == wrap_unsigned(x % word(), modulus),
        wrap_signed(x, modulus) == wrap_signed(x % word(), modulus),
{
    let q: int = if modulus == 0x100 {
        0x100_0000_0000_0000
    } else if modulus == 0x1_0000 {
        0x1_0000_0000_0000
    } else if modulus == 0x1_0000_0000 {
        0x1_0000_0000
    } else {
        1
    };
    assert(word() == modulus * q);
    lemma_mod_mod(x, modulus, q);
}

/// The sign may be applied before or after reducing to 64 bits.
pub proof fn lemma_wrap_negated(n: nat, modulus: int)
    requires
        is_width(modulus),
    ensures
        wrap_signed(-(n as int), modulus) == wrap_signed(-((n as int) % word()), modulus),
        wrap_signed(n as int, modulus) == wrap_signed((n as int) % word(), modulus),
        wrap_unsigned(n as int, modulus) == wrap_unsigned((n as int) % word(), modulus),
{
    let w = word();
    let x = n as int;
    lemma_wrap_twice(x, modulus);
    lemma_wrap_twice(-x, modulus);
    lemma_wrap_twice(-(x % w), modulus);
    lemma_sub_mod_noop_right(0, x, w);
    assert((0 - (x % w)) % w == (0 - x) % w);
    assert((-(x % w)) % w == (-x) % w);
}

/// One more digit: multiplying by ten and adding with wrap-around keeps the
/// number reduced to 64 bits.
pub proof fn lemma_push_digit_wraps(v: nat, num: u64, d: u8)
    requires
        num as int == (v as int) % word(),
        d <= 9,
    ensures
        num.wrapping_mul(10).wrapping_add(d as u64) as int == (10 * (v as int) + d) % word(),
{
    let w = word();
    let x = v as int;
    let a = (num as int * 10) % w;
    lemma_mul_mod_noop_left(x, 10, w);
    assert(a == (x * 10) % w);
    lemma_add_mod_noop(x * 10, d as int, w);
    lemma_small_mod(d as nat, w as nat);
    assert((a + d) % w == (x * 10 + d) % w);
    if a + d >= w {
        lemma_fundamental_div_mod_converse_mod(a + d, w, 1, a + d - w);
    } else {
        lemma_small_mod((a + d) as nat, w as nat);
    }
}

/// The value of `v` in an unsigned type of the width `width`.
pub fn low_unsigned(v: u64, width: Width) -> (r: u64)
    ensures
        r == wrap_unsigned(v as int, width.modulus()),
{
    let modulus: u128 = width.values();
    let wide: u128 = v as u128;
    (wide % modulus) as u64
}

/// The value of `v`, negated if `negative` is set, in a two's complement
/// type of the width `width`.
pub fn low_signed(negative: bool, v: u64, width: Width) -> (r: i64)
    ensures
        r == wrap_signed(
            if negative {
                -(v as int)
            } else {
                v as int
            },
            width.modulus(),
        ),
{
    let modulus: u128 = width.values();
    let wide: u128 = v as u128;
    let low: u128 = wide % modulus;
    let bits: u128 = if negative && low != 0 {
        modulus - low
    } else {
        low
    };
    proof {
        let m = modulus as int;
        if negative {
            lemma_fundamental_div_mod(v as int, m);
            let q = (v as int) / m;
            assert(v as int == m * q + low);
            if low != 0 {
                assert(-(v as int) == (-q - 1) * m + (m - low)) by (nonlinear_arith)
                    requires
                        v as int == m * q + low,
                ;
                lemma_fundamental_div_mod_converse_mod(-(v as int), m, -q - 1, m - low);
            } else {
                assert(-(v as int) == (-q) * m + 0) by (nonlinear_arith)
                    requires
                        v as int == m * q + low,
                        low == 0,
                ;
                lemma_fundamental_div_mod_converse_mod(-(v as int), m, -q, 0);
            }
        }
        assert(m % 2 == 0);
    }
    if bits >= modulus / 2 {
        let over: u128 = modulus - bits;
        let neg: i128 = 0 - (over as i128);
        neg as i64
    } else {
        bits as i64
    }
}

/// Reducing to 64 bits in two's complement first does not change what a
/// narrower signed type holds.
pub proof fn lemma_wrap_signed_twice(x: int, modulus: int)
    requires
        is_width(modulus),
    ensures
        wrap_signed(wrap_signed(x, word()), modulus) == wrap_signed(x, modulus),
{
    let w = word();
    let y = wrap_signed(x, w);
    lemma_mod_twice(x, w);
    lemma_mod_sub_multiples_vanish(x % w, w);
    assert(y % w == x % w);
    lemma_wrap_twice(y, modulus);
    lemma_wrap_twice(x, modulus);
}

/// The value of `x` in a two's complement type of the width `width`.
pub fn narrow_signed(x: i64, width: Width) -> (r: i64)
    ensures
        r == wrap_signed(x as int, width.modulus()),
{
    if x >= 0 {
        low_signed(false, x as u64, width)
    } else {
        let below: i64 = -(x + 1);
        let magnitude: u64 = below as u64 + 1;
        low_signed(true, magnitude, width)
    }
}

} // verus!
