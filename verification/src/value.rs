//! Numeric types for rules files.
//!
//! Rules values feed the simulation directly, and the simulation cannot use
//! floating point. Fractional values are therefore written as integers in
//! hundredths and converted to fixed point by exact integer arithmetic, so
//! every peer produces the same bits from the same file. `4.5 cells/second`
//! is written `450`.

use vstd::prelude::*;
use crate::text::{append_decimal, decimal, digit_char};

verus! {

/// The fixed-point scalar the simulation uses.
pub type FxRaw = i32;

/// Number of fractional bits in the simulation's fixed-point type.
pub const FRAC_BITS: u32 = 16;

/// Simulation ticks in one second.
pub const TICKS_PER_SECOND: u32 = 20;

/// Milliseconds in one simulation tick.
pub const TICK_MS: u32 = 50;

/// `value * factor / divisor`, with the quotient truncated toward zero as
/// integer division does.
pub open spec fn scaled_toward_zero(value: int, factor: int, divisor: int) -> int {
    let product = value * factor;
    if product >= 0 {
        product / divisor
    } else {
        -((-product) / divisor)
    }
}

/// The exact fixed-point value of `h` hundredths, truncated toward zero.
pub open spec fn fx_of_hundredths(h: int) -> int {
    scaled_toward_zero(h, 65536, 100)
}

/// A value in hundredths. `450` means `4.5`.
#[derive(Clone, Copy, PartialEq, Eq, PartialOrd, Ord, Hash, Debug, Default)]
pub struct Hundredths(pub i32);

/// Two digits, with a leading zero below ten.
pub open spec fn two_digits(n: nat) -> Seq<char> {
    seq![digit_char((n / 10) as int), digit_char((n % 10) as int)]
}

/// How a value in hundredths reads: `4.50`, `0.05`, `-4.50`.
pub open spec fn hundredths_text(v: int) -> Seq<char> {
    let magnitude: nat = if v < 0 {
        (-v) as nat
    } else {
        v as nat
    };
    (if v < 0 {
        seq!['-']
    } else {
        Seq::<char>::empty()
    }) + decimal(magnitude / 100) + seq!['.'] + two_digits(magnitude % 100)
}

impl Hundredths {
    /// Nothing: `0.00`.
    pub fn zero() -> (r: Hundredths)
        ensures
            r.0 == 0,
    {
        Hundredths(0)
    }

    /// Exactly one: `1.00`.
    pub fn one() -> (r: Hundredths)
        ensures
            r.0 == 100,
    {
        Hundredths(100)
    }

    /// The raw fixed-point representation, computed by exact integer
    /// arithmetic so every peer produces the same bits.
    pub fn to_fx_raw(self) -> (r: FxRaw)
        ensures
            r == fx_of_hundredths(self.0 as int) as i32,
            i32::MIN <= fx_of_hundredths(self.0 as int) <= i32::MAX ==> r as int
                == fx_of_hundredths(self.0 as int),
    {
        let wide: i64 = (self.0 as i64) * 65536;
        let q: i64 = wide / 100;
        assert(q as int == fx_of_hundredths(self.0 as int));
        #[verifier::truncate]
        (q as i32)
    }

    /// The whole part, truncated toward zero.
    pub fn whole(self) -> (r: i32)
        ensures
            r as int == scaled_toward_zero(self.0 as int, 1, 100),
    {
        self.0 / 100
    }

    pub fn is_zero(self) -> (r: bool)
        ensures
            r == (self.0 == 0),
    {
        self.0 == 0
    }

    /// The value as a person reads it: whole part, a point, two digits.
    pub fn to_string(&self) -> (r: String)
        ensures
            r@ == hundredths_text(self.0 as int),
    {
        let mut s = String::new();
        let magnitude: u32 = if self.0 < 0 {
            if self.0 == i32::MIN {
                2147483648u32
            } else {
                (-self.0) as u32
            }
        } else {
            self.0 as u32
        };
        if self.0 < 0 {
            proof {
                reveal_strlit("-");
            }
            s.append("-");
        }
        append_decimal(&mut s, (magnitude / 100) as u64);
        proof {
            reveal_strlit(".");
        }
        s.append(".");
        let rest: u32 = magnitude % 100;
        append_decimal(&mut s, (rest / 10) as u64);
        append_decimal(&mut s, (rest % 10) as u64);
        proof {
            let sign = if self.0 < 0 {
                seq!['-']
            } else {
                Seq::<char>::empty()
            };
            assert(decimal((rest / 10) as nat) == seq![digit_char((rest / 10) as int)]);
            assert(decimal((rest % 10) as nat) == seq![digit_char((rest % 10) as int)]);
            assert(s@ =~= hundredths_text(self.0 as int));
        }
        s
    }
}

/// A percentage. `100` is unchanged, `60` is "60% as much".
///
/// A distinct type from [`Hundredths`] because confusing the two is otherwise
/// a silent hundredfold error.
#[derive(Clone, Copy, PartialEq, Eq, PartialOrd, Ord, Hash, Debug)]
pub struct Percent(pub i32);

/// `value` scaled by `percent`, rounded toward zero.
pub open spec fn percent_of(value: int, percent: int) -> int {
    scaled_toward_zero(value, percent, 100)
}

impl Percent {
    /// None at all.
    pub fn zero() -> (r: Percent)
        ensures
            r.0 == 0,
    {
        Percent(0)
    }

    /// Unchanged.
    pub fn full() -> (r: Percent)
        ensures
            r.0 == 100,
    {
        Percent(100)
    }

    /// Applies this percentage to an integer, rounding toward zero.
    ///
    /// The product is formed in 64 bits, so it cannot overflow; a result
    /// outside `i32` wraps as the conversion back to `i32` does.
    pub fn apply(self, value: i32) -> (r: i32)
        ensures
            r == percent_of(value as int, self.0 as int) as i32,
            i32::MIN <= percent_of(value as int, self.0 as int) <= i32::MAX ==> r as int
                == percent_of(value as int, self.0 as int),
    {
        let a: i64 = value as i64;
        let b: i64 = self.0 as i64;
        assert(-2147483648 <= a <= 2147483647 && -2147483648 <= b <= 2147483647 ==> -4611686018427387904 <= a * b <= 4611686018427387904) by (nonlinear_arith);
        let wide: i64 = a * b;
        let q: i64 = wide / 100;
        assert(q as int == percent_of(value as int, self.0 as int));
        #[verifier::truncate]
        (q as i32)
    }

    /// The percentage as a person reads it: `60%`.
    pub fn to_string(&self) -> (r: String)
        ensures
            r@ == crate::text::signed_decimal(self.0 as int) + seq!['%'],
    {
        let mut s = String::new();
        crate::text::append_signed(&mut s, self.0 as i64);
        proof {
            reveal_strlit("%");
        }
        s.append("%");
        proof {
            assert(s@ =~= crate::text::signed_decimal(self.0 as int) + seq!['%']);
        }
        s
    }
}

impl Default for Percent {
    /// A modifier left unwritten means "no change", not "zero".
    fn default() -> (r: Percent)
        ensures
            r.0 == 100,
    {
        Percent(100)
    }
}

/// A duration in simulation ticks.
#[derive(Clone, Copy, PartialEq, Eq, PartialOrd, Ord, Hash, Debug, Default)]
pub struct Ticks(pub u32);

impl Ticks {
    pub fn from_seconds(seconds: u32, ticks_per_second: u32) -> (r: Ticks)
        requires
            seconds * ticks_per_second <= u32::MAX,
        ensures
            r.0 == seconds * ticks_per_second,
    {
        Ticks(seconds * ticks_per_second)
    }

    /// The duration as a person reads it: `45 ticks`.
    pub fn to_string(&self) -> (r: String)
        ensures
            r@ == decimal(self.0 as nat) + " ticks"@,
    {
        let mut s = String::new();
        append_decimal(&mut s, self.0 as u64);
        s.append(" ticks");
        proof {
            assert(s@ =~= decimal(self.0 as nat) + " ticks"@);
        }
        s
    }
}

} // verus!
