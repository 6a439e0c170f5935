//! The word type of the machine: a fixed-width integer with checked
//! arithmetic, abstracted by the [`Integer`] trait so that programs can be
//! run over any signed or unsigned width.

use vstd::prelude::*;

verus! {

/// Truncated (round-toward-zero) division of `x` by `d`, meaningful for `d != 0`.
///
/// This is the division convention of the machine's `DIV` instruction.
pub open spec fn tdiv(x: int, d: int) -> int {
    if x == 0 {
        0
    } else if x > 0 && d > 0 {
        x / d
    } else if x < 0 && d < 0 {
        (x * -1) / (d * -1)
    } else if x < 0 {
        ((x * -1) / d) * -1
    } else {
        (x / (d * -1)) * -1
    }
}

/// Truncated remainder, following the sign of the dividend, meaningful for `d != 0`.
///
/// This is the remainder convention of the machine's `MOD` instruction:
/// `tmod(-5, 2) == -1` and `tmod(-5, -2) == -1`.
pub open spec fn tmod(x: int, d: int) -> int {
    if x == 0 {
        0
    } else if x > 0 && d > 0 {
        x % d
    } else if x < 0 && d < 0 {
        ((x * -1) % (d * -1)) * -1
    } else if x < 0 {
        ((x * -1) % d) * -1
    } else {
        x % (d * -1)
    }
}

/// For a non-negative dividend and positive divisor, the remainder never
/// exceeds the dividend.
proof fn lemma_mod_at_most(a: int, b: int)
    requires
        a >= 0,
        b > 0,
    ensures
        0 <= a % b <= a,
{
    if a / b == 0 {
        assert(a == b * (a / b) + a % b) by {
            vstd::arithmetic::div_mod::lemma_fundamental_div_mod(a, b);
        }
    } else {
        assert(a / b >= 1) by {
            vstd::arithmetic::div_mod::lemma_div_pos_is_pos(a, b);
        }
        assert(b * (a / b) >= b) by (nonlinear_arith)
            requires b > 0, a / b >= 1;
        assert(a == b * (a / b) + a % b) by {
            vstd::arithmetic::div_mod::lemma_fundamental_div_mod(a, b);
        }
    }
}

/// The truncated remainder has the sign of the dividend and magnitude at
/// most the dividend's, so it always stays inside the word's range.
pub proof fn lemma_tmod_bounds(x: int, d: int)
    requires
        d != 0,
    ensures
        x >= 0 ==> 0 <= tmod(x, d) <= x,
        x < 0 ==> x <= tmod(x, d) <= 0,
{
    if x == 0 {
    } else if x > 0 && d > 0 {
        lemma_mod_at_most(x, d);
    } else if x < 0 && d < 0 {
        lemma_mod_at_most(x * -1, d * -1);
    } else if x < 0 {
        lemma_mod_at_most(x * -1, d);
    } else {
        lemma_mod_at_most(x, d * -1);
    }
}

/// For non-negative dividends the truncated remainder is the plain
/// Euclidean one.
proof fn lemma_tmod_nonneg(x: int, d: int)
    requires
        x >= 0,
        d > 0,
    ensures
        tmod(x, d) == x % d,
{
    if x == 0 {
        assert(tmod(x, d) == 0);
        assert(x % d == 0);
    }
}

/// A machine word: a signed or unsigned fixed-width integer with checked
/// arithmetic, a total order, and a conversion to a register index.
///
/// The spec side gives every word a mathematical value `v()` lying in
/// `[min_v(), max_v()]`; every operation is specified exactly over those
/// values.
pub trait Integer: Sized + Copy {
    /// The mathematical value of this word.
    spec fn v(self) -> int;

    /// The smallest representable value (`0` for unsigned words).
    spec fn min_v() -> int;

    /// The largest representable value.
    spec fn max_v() -> int;

    /// Every word's value lies in the representable range.
    proof fn lemma_range(self)
        ensures
            Self::min_v() <= self.v() <= Self::max_v(),
    ;

    /// The range always holds at least `0..=10`.
    proof fn lemma_range_shape()
        ensures
            Self::min_v() <= 0,
            Self::max_v() >= 10,
    ;

    /// Words with equal values are equal.
    proof fn lemma_injective(a: Self, b: Self)
        requires
            a.v() == b.v(),
        ensures
            a == b,
    ;

    /// The word `0`.
    fn zero() -> (r: Self)
        ensures
            r.v() == 0,
    ;

    /// The word `1`.
    fn one() -> (r: Self)
        ensures
            r.v() == 1,
    ;

    /// The word `10` (the base of the textual form).
    fn ten() -> (r: Self)
        ensures
            r.v() == 10,
    ;

    /// The smallest representable word.
    fn min_value() -> (r: Self)
        ensures
            r.v() == Self::min_v(),
    ;

    /// The largest representable word.
    fn max_value() -> (r: Self)
        ensures
            r.v() == Self::max_v(),
    ;

    /// Whether the word type admits negative values.
    fn is_signed() -> (r: bool)
        ensures
            r <==> Self::min_v() < 0,
    ;

    /// Value equality.
    fn eq_value(self, other: Self) -> (r: bool)
        ensures
            r <==> self.v() == other.v(),
    ;

    /// Value order.
    fn lt_value(self, other: Self) -> (r: bool)
        ensures
            r <==> self.v() < other.v(),
    ;

    /// Checked addition: `None` exactly when the sum leaves the range.
    fn checked_add(self, other: Self) -> (r: Option<Self>)
        ensures
            r is Some <==> Self::min_v() <= self.v() + other.v() <= Self::max_v(),
            r matches Some(s) ==> s.v() == self.v() + other.v(),
    ;

    /// Checked subtraction: `None` exactly when the difference leaves the range.
    fn checked_sub(self, other: Self) -> (r: Option<Self>)
        ensures
            r is Some <==> Self::min_v() <= self.v() - other.v() <= Self::max_v(),
            r matches Some(s) ==> s.v() == self.v() - other.v(),
    ;

    /// Checked multiplication: `None` exactly when the product leaves the range.
    fn checked_mul(self, other: Self) -> (r: Option<Self>)
        ensures
            r is Some <==> Self::min_v() <= self.v() * other.v() <= Self::max_v(),
            r matches Some(s) ==> s.v() == self.v() * other.v(),
    ;

    /// Checked truncated division: `None` on a zero divisor or when the
    /// quotient leaves the range.
    fn checked_div(self, other: Self) -> (r: Option<Self>)
        ensures
            r is Some <==> other.v() != 0 && Self::min_v() <= tdiv(self.v(), other.v())
                <= Self::max_v(),
            r matches Some(s) ==> s.v() == tdiv(self.v(), other.v()),
    ;

    /// Checked truncated remainder: `None` on a zero divisor, or for the
    /// smallest word divided by `-1`.
    fn checked_rem(self, other: Self) -> (r: Option<Self>)
        ensures
            r is None <==> other.v() == 0 || (self.v() == Self::min_v() && other.v() == -1),
            r matches Some(s) ==> s.v() == tmod(self.v(), other.v()),
    ;

    /// Checked negation: `None` exactly when the negation leaves the range.
    fn checked_neg(self) -> (r: Option<Self>)
        ensures
            r is Some <==> Self::min_v() <= -self.v() <= Self::max_v(),
            r matches Some(s) ==> s.v() == -self.v(),
    ;

    /// Conversion to a register or instruction index. Addresses must stay
    /// strictly under `usize::MAX` so that the register file can always
    /// grow one cell past them.
    fn to_index(self) -> (r: Option<usize>)
        ensures
            r is Some <==> 0 <= self.v() < usize::MAX,
            r matches Some(u) ==> u as int == self.v(),
    ;

    /// The word split into a sign and a magnitude; the widest unsigned
    /// word holds every magnitude.
    fn to_parts(self) -> (r: (bool, u128))
        ensures
            r.0 ==> self.v() == -(r.1 as int),
            !r.0 ==> self.v() == r.1 as int,
    ;

    /// The word of the given sign and magnitude, where that value fits
    /// the range.
    fn from_parts(neg: bool, mag: u128) -> (r: Option<Self>)
        ensures
            r is Some <==> Self::min_v() <= (if neg {
                -(mag as int)
            } else {
                mag as int
            }) <= Self::max_v(),
            r matches Some(t) ==> t.v() == (if neg {
                -(mag as int)
            } else {
                mag as int
            }),
    ;

    /// The word with a single decimal digit's value.
    fn from_digit(d: u8) -> (r: Self)
        requires
            d <= 9,
        ensures
            r.v() == d as int,
    ;

    /// The decimal digit of a small word.
    fn as_digit(self) -> (r: u8)
        requires
            0 <= self.v() <= 9,
        ensures
            r as int == self.v(),
    ;
}

impl Integer for i32 {
    open spec fn v(self) -> int {
        self as int
    }

    open spec fn min_v() -> int {
        -0x8000_0000
    }

    open spec fn max_v() -> int {
        0x7fff_ffff
    }

    proof fn lemma_range(self) {
    }

    proof fn lemma_range_shape() {
    }

    proof fn lemma_injective(a: Self, b: Self) {
    }

    fn zero() -> Self {
        0
    }

    fn one() -> Self {
        1
    }

    fn ten() -> Self {
        10
    }

    fn min_value() -> Self {
        i32::MIN
    }

    fn max_value() -> Self {
        i32::MAX
    }

    fn is_signed() -> bool {
        true
    }

    fn eq_value(self, other: Self) -> bool {
        self == other
    }

    fn lt_value(self, other: Self) -> bool {
        self < other
    }

    fn checked_add(self, other: Self) -> Option<Self> {
        i32::checked_add(self, other)
    }

    fn checked_sub(self, other: Self) -> Option<Self> {
        i32::checked_sub(self, other)
    }

    fn checked_mul(self, other: Self) -> Option<Self> {
        i32::checked_mul(self, other)
    }

    fn checked_div(self, other: Self) -> Option<Self> {
        i32::checked_div(self, other)
    }

    fn checked_rem(self, other: Self) -> (r: Option<Self>) {
        proof {
            if other != 0 {
                lemma_tmod_bounds(self as int, other as int);
            }
        }
        i32::checked_rem(self, other)
    }

    fn checked_neg(self) -> Option<Self> {
        if self == i32::MIN {
            None
        } else {
            Some(-self)
        }
    }

    fn to_index(self) -> Option<usize> {
        if self < 0 {
            None
        } else if (self as u64) < (usize::MAX as u64) {
            Some(self as usize)
        } else {
            None
        }
    }

    fn to_parts(self) -> (bool, u128) {
        if self == i32::MIN {
            (true, (i32::MAX as u128) + 1)
        } else if self < 0 {
            (true, (-self) as u128)
        } else {
            (false, self as u128)
        }
    }

    fn from_parts(neg: bool, mag: u128) -> Option<Self> {
        if neg {
            if mag <= i32::MAX as u128 {
                Some(-(mag as i32))
            } else if mag == (i32::MAX as u128) + 1 {
                Some(i32::MIN)
            } else {
                None
            }
        } else {
            if mag <= i32::MAX as u128 {
                Some(mag as i32)
            } else {
                None
            }
        }
    }

    fn from_digit(d: u8) -> Self {
        d as i32
    }

    fn as_digit(self) -> u8 {
        self as u8
    }
}


impl Integer for i8 {
    open spec fn v(self) -> int {
        self as int
    }

    open spec fn min_v() -> int {
        -0x80
    }

    open spec fn max_v() -> int {
        0x7f
    }

    proof fn lemma_range(self) {
    }

    proof fn lemma_range_shape() {
    }

    proof fn lemma_injective(a: Self, b: Self) {
    }

    fn zero() -> Self {
        0
    }

    fn one() -> Self {
        1
    }

    fn ten() -> Self {
        10
    }

    fn min_value() -> Self {
        i8::MIN
    }

    fn max_value() -> Self {
        i8::MAX
    }

    fn is_signed() -> bool {
        true
    }

    fn eq_value(self, other: Self) -> bool {
        self == other
    }

    fn lt_value(self, other: Self) -> bool {
        self < other
    }

    fn checked_add(self, other: Self) -> Option<Self> {
        i8::checked_add(self, other)
    }

    fn checked_sub(self, other: Self) -> Option<Self> {
        i8::checked_sub(self, other)
    }

    fn checked_mul(self, other: Self) -> Option<Self> {
        i8::checked_mul(self, other)
    }

    fn checked_div(self, other: Self) -> Option<Self> {
        i8::checked_div(self, other)
    }

    fn checked_rem(self, other: Self) -> (r: Option<Self>) {
        proof {
            if other != 0 {
                lemma_tmod_bounds(self as int, other as int);
            }
        }
        i8::checked_rem(self, other)
    }

    fn checked_neg(self) -> Option<Self> {
        if self == i8::MIN {
            None
        } else {
            Some(-self)
        }
    }

    fn to_index(self) -> Option<usize> {
        if self < 0 {
            None
        } else if (self as u64) < (usize::MAX as u64) {
            Some(self as usize)
        } else {
            None
        }
    }

    fn to_parts(self) -> (bool, u128) {
        if self == i8::MIN {
            (true, (i8::MAX as u128) + 1)
        } else if self < 0 {
            (true, (-self) as u128)
        } else {
            (false, self as u128)
        }
    }

    fn from_parts(neg: bool, mag: u128) -> Option<Self> {
        if neg {
            if mag <= i8::MAX as u128 {
                Some(-(mag as i8))
            } else if mag == (i8::MAX as u128) + 1 {
                Some(i8::MIN)
            } else {
                None
            }
        } else {
            if mag <= i8::MAX as u128 {
                Some(mag as i8)
            } else {
                None
            }
        }
    }

    fn from_digit(d: u8) -> Self {
        d as i8
    }

    fn as_digit(self) -> u8 {
        self as u8
    }
}

impl Integer for i16 {
    open spec fn v(self) -> int {
        self as int
    }

    open spec fn min_v() -> int {
        -0x8000
    }

    open spec fn max_v() -> int {
        0x7fff
    }

    proof fn lemma_range(self) {
    }

    proof fn lemma_range_shape() {
    }

    proof fn lemma_injective(a: Self, b: Self) {
    }

    fn zero() -> Self {
        0
    }

    fn one() -> Self {
        1
    }

    fn ten() -> Self {
        10
    }

    fn min_value() -> Self {
        i16::MIN
    }

    fn max_value() -> Self {
        i16::MAX
    }

    fn is_signed() -> bool {
        true
    }

    fn eq_value(self, other: Self) -> bool {
        self == other
    }

    fn lt_value(self, other: Self) -> bool {
        self < other
    }

    fn checked_add(self, other: Self) -> Option<Self> {
        i16::checked_add(self, other)
    }

    fn checked_sub(self, other: Self) -> Option<Self> {
        i16::checked_sub(self, other)
    }

    fn checked_mul(self, other: Self) -> Option<Self> {
        i16::checked_mul(self, other)
    }

    fn checked_div(self, other: Self) -> Option<Self> {
        i16::checked_div(self, other)
    }

    fn checked_rem(self, other: Self) -> (r: Option<Self>) {
        proof {
            if other != 0 {
                lemma_tmod_bounds(self as int, other as int);
            }
        }
        i16::checked_rem(self, other)
    }

    fn checked_neg(self) -> Option<Self> {
        if self == i16::MIN {
            None
        } else {
            Some(-self)
        }
    }

    fn to_index(self) -> Option<usize> {
        if self < 0 {
            None
        } else if (self as u64) < (usize::MAX as u64) {
            Some(self as usize)
        } else {
            None
        }
    }

    fn to_parts(self) -> (bool, u128) {
        if self == i16::MIN {
            (true, (i16::MAX as u128) + 1)
        } else if self < 0 {
            (true, (-self) as u128)
        } else {
            (false, self as u128)
        }
    }

    fn from_parts(neg: bool, mag: u128) -> Option<Self> {
        if neg {
            if mag <= i16::MAX as u128 {
                Some(-(mag as i16))
            } else if mag == (i16::MAX as u128) + 1 {
                Some(i16::MIN)
            } else {
                None
            }
        } else {
            if mag <= i16::MAX as u128 {
                Some(mag as i16)
            } else {
                None
            }
        }
    }

    fn from_digit(d: u8) -> Self {
        d as i16
    }

    fn as_digit(self) -> u8 {
        self as u8
    }
}

impl Integer for i64 {
    open spec fn v(self) -> int {
        self as int
    }

    open spec fn min_v() -> int {
        -0x8000_0000_0000_0000
    }

    open spec fn max_v() -> int {
        0x7fff_ffff_ffff_ffff
    }

    proof fn lemma_range(self) {
    }

    proof fn lemma_range_shape() {
    }

    proof fn lemma_injective(a: Self, b: Self) {
    }

    fn zero() -> Self {
        0
    }

    fn one() -> Self {
        1
    }

    fn ten() -> Self {
        10
    }

    fn min_value() -> Self {
        i64::MIN
    }

    fn max_value() -> Self {
        i64::MAX
    }

    fn is_signed() -> bool {
        true
    }

    fn eq_value(self, other: Self) -> bool {
        self == other
    }

    fn lt_value(self, other: Self) -> bool {
        self < other
    }

    fn checked_add(self, other: Self) -> Option<Self> {
        i64::checked_add(self, other)
    }

    fn checked_sub(self, other: Self) -> Option<Self> {
        i64::checked_sub(self, other)
    }

    fn checked_mul(self, other: Self) -> Option<Self> {
        i64::checked_mul(self, other)
    }

    fn checked_div(self, other: Self) -> Option<Self> {
        i64::checked_div(self, other)
    }

    fn checked_rem(self, other: Self) -> (r: Option<Self>) {
        proof {
            if other != 0 {
                lemma_tmod_bounds(self as int, other as int);
            }
        }
        i64::checked_rem(self, other)
    }

    fn checked_neg(self) -> Option<Self> {
        if self == i64::MIN {
            None
        } else {
            Some(-self)
        }
    }

    fn to_index(self) -> Option<usize> {
        if self < 0 {
            None
        } else if (self as u64) < (usize::MAX as u64) {
            Some(self as usize)
        } else {
            None
        }
    }

    fn to_parts(self) -> (bool, u128) {
        if self == i64::MIN {
            (true, (i64::MAX as u128) + 1)
        } else if self < 0 {
            (true, (-self) as u128)
        } else {
            (false, self as u128)
        }
    }

    fn from_parts(neg: bool, mag: u128) -> Option<Self> {
        if neg {
            if mag <= i64::MAX as u128 {
                Some(-(mag as i64))
            } else if mag == (i64::MAX as u128) + 1 {
                Some(i64::MIN)
            } else {
                None
            }
        } else {
            if mag <= i64::MAX as u128 {
                Some(mag as i64)
            } else {
                None
            }
        }
    }

    fn from_digit(d: u8) -> Self {
        d as i64
    }

    fn as_digit(self) -> u8 {
        self as u8
    }
}

impl Integer for i128 {
    open spec fn v(self) -> int {
        self as int
    }

    open spec fn min_v() -> int {
        -0x8000_0000_0000_0000_0000_0000_0000_0000
    }

    open spec fn max_v() -> int {
        0x7fff_ffff_ffff_ffff_ffff_ffff_ffff_ffff
    }

    proof fn lemma_range(self) {
    }

    proof fn lemma_range_shape() {
    }

    proof fn lemma_injective(a: Self, b: Self) {
    }

    fn zero() -> Self {
        0
    }

    fn one() -> Self {
        1
    }

    fn ten() -> Self {
        10
    }

    fn min_value() -> Self {
        i128::MIN
    }

    fn max_value() -> Self {
        i128::MAX
    }

    fn is_signed() -> bool {
        true
    }

    fn eq_value(self, other: Self) -> bool {
        self == other
    }

    fn lt_value(self, other: Self) -> bool {
        self < other
    }

    fn checked_add(self, other: Self) -> Option<Self> {
        i128::checked_add(self, other)
    }

    fn checked_sub(self, other: Self) -> Option<Self> {
        i128::checked_sub(self, other)
    }

    fn checked_mul(self, other: Self) -> Option<Self> {
        i128::checked_mul(self, other)
    }

    fn checked_div(self, other: Self) -> Option<Self> {
        i128::checked_div(self, other)
    }

    fn checked_rem(self, other: Self) -> (r: Option<Self>) {
        proof {
            if other != 0 {
                lemma_tmod_bounds(self as int, other as int);
            }
        }
        i128::checked_rem(self, other)
    }

    fn checked_neg(self) -> Option<Self> {
        if self == i128::MIN {
            None
        } else {
            Some(-self)
        }
    }

    fn to_index(self) -> Option<usize> {
        if self < 0 {
            None
        } else if (self as u128) < (usize::MAX as u128) {
            Some(self as usize)
        } else {
            None
        }
    }

    fn to_parts(self) -> (bool, u128) {
        if self == i128::MIN {
            (true, (i128::MAX as u128) + 1)
        } else if self < 0 {
            (true, (-self) as u128)
        } else {
            (false, self as u128)
        }
    }

    fn from_parts(neg: bool, mag: u128) -> Option<Self> {
        if neg {
            if mag <= i128::MAX as u128 {
                Some(-(mag as i128))
            } else if mag == (i128::MAX as u128) + 1 {
                Some(i128::MIN)
            } else {
                None
            }
        } else {
            if mag <= i128::MAX as u128 {
                Some(mag as i128)
            } else {
                None
            }
        }
    }

    fn from_digit(d: u8) -> Self {
        d as i128
    }

    fn as_digit(self) -> u8 {
        self as u8
    }
}

impl Integer for u8 {
    open spec fn v(self) -> int {
        self as int
    }

    open spec fn min_v() -> int {
        0
    }

    open spec fn max_v() -> int {
        0xff
    }

    proof fn lemma_range(self) {
    }

    proof fn lemma_range_shape() {
    }

    proof fn lemma_injective(a: Self, b: Self) {
    }

    fn zero() -> Self {
        0
    }

    fn one() -> Self {
        1
    }

    fn ten() -> Self {
        10
    }

    fn min_value() -> Self {
        u8::MIN
    }

    fn max_value() -> Self {
        u8::MAX
    }

    fn is_signed() -> bool {
        false
    }

    fn eq_value(self, other: Self) -> bool {
        self == other
    }

    fn lt_value(self, other: Self) -> bool {
        self < other
    }

    fn checked_add(self, other: Self) -> Option<Self> {
        u8::checked_add(self, other)
    }

    fn checked_sub(self, other: Self) -> Option<Self> {
        u8::checked_sub(self, other)
    }

    fn checked_mul(self, other: Self) -> Option<Self> {
        u8::checked_mul(self, other)
    }

    fn checked_div(self, other: Self) -> Option<Self> {
        u8::checked_div(self, other)
    }

    fn checked_rem(self, other: Self) -> (r: Option<Self>) {
        proof {
            if other != 0 {
                lemma_tmod_nonneg(self as int, other as int);
            }
        }
        u8::checked_rem(self, other)
    }

    fn checked_neg(self) -> Option<Self> {
        if self == 0 {
            Some(0)
        } else {
            None
        }
    }

    fn to_index(self) -> Option<usize> {
        if (self as u64) < (usize::MAX as u64) {
            Some(self as usize)
        } else {
            None
        }
    }

    fn to_parts(self) -> (bool, u128) {
        (false, self as u128)
    }

    fn from_parts(neg: bool, mag: u128) -> Option<Self> {
        if neg {
            if mag == 0 {
                Some(0)
            } else {
                None
            }
        } else {
            if mag <= u8::MAX as u128 {
                Some(mag as u8)
            } else {
                None
            }
        }
    }

    fn from_digit(d: u8) -> Self {
        d as u8
    }

    fn as_digit(self) -> u8 {
        self as u8
    }
}

impl Integer for u16 {
    open spec fn v(self) -> int {
        self as int
    }

    open spec fn min_v() -> int {
        0
    }

    open spec fn max_v() -> int {
        0xffff
    }

    proof fn lemma_range(self) {
    }

    proof fn lemma_range_shape() {
    }

    proof fn lemma_injective(a: Self, b: Self) {
    }

    fn zero() -> Self {
        0
    }

    fn one() -> Self {
        1
    }

    fn ten() -> Self {
        10
    }

    fn min_value() -> Self {
        u16::MIN
    }

    fn max_value() -> Self {
        u16::MAX
    }

    fn is_signed() -> bool {
        false
    }

    fn eq_value(self, other: Self) -> bool {
        self == other
    }

    fn lt_value(self, other: Self) -> bool {
        self < other
    }

    fn checked_add(self, other: Self) -> Option<Self> {
        u16::checked_add(self, other)
    }

    fn checked_sub(self, other: Self) -> Option<Self> {
        u16::checked_sub(self, other)
    }

    fn checked_mul(self, other: Self) -> Option<Self> {
        u16::checked_mul(self, other)
    }

    fn checked_div(self, other: Self) -> Option<Self> {
        u16::checked_div(self, other)
    }

    fn checked_rem(self, other: Self) -> (r: Option<Self>) {
        proof {
            if other != 0 {
                lemma_tmod_nonneg(self as int, other as int);
            }
        }
        u16::checked_rem(self, other)
    }

    fn checked_neg(self) -> Option<Self> {
        if self == 0 {
            Some(0)
        } else {
            None
        }
    }

    fn to_index(self) -> Option<usize> {
        if (self as u64) < (usize::MAX as u64) {
            Some(self as usize)
        } else {
            None
        }
    }

    fn to_parts(self) -> (bool, u128) {
        (false, self as u128)
    }

    fn from_parts(neg: bool, mag: u128) -> Option<Self> {
        if neg {
            if mag == 0 {
                Some(0)
            } else {
                None
            }
        } else {
            if mag <= u16::MAX as u128 {
                Some(mag as u16)
            } else {
                None
            }
        }
    }

    fn from_digit(d: u8) -> Self {
        d as u16
    }

    fn as_digit(self) -> u8 {
        self as u8
    }
}

impl Integer for u32 {
    open spec fn v(self) -> int {
        self as int
    }

    open spec fn min_v() -> int {
        0
    }

    open spec fn max_v() -> int {
        0xffff_ffff
    }

    proof fn lemma_range(self) {
    }

    proof fn lemma_range_shape() {
    }

    proof fn lemma_injective(a: Self, b: Self) {
    }

    fn zero() -> Self {
        0
    }

    fn one() -> Self {
        1
    }

    fn ten() -> Self {
        10
    }

    fn min_value() -> Self {
        u32::MIN
    }

    fn max_value() -> Self {
        u32::MAX
    }

    fn is_signed() -> bool {
        false
    }

    fn eq_value(self, other: Self) -> bool {
        self == other
    }

    fn lt_value(self, other: Self) -> bool {
        self < other
    }

    fn checked_add(self, other: Self) -> Option<Self> {
        u32::checked_add(self, other)
    }

    fn checked_sub(self, other: Self) -> Option<Self> {
        u32::checked_sub(self, other)
    }

    fn checked_mul(self, other: Self) -> Option<Self> {
        u32::checked_mul(self, other)
    }

    fn checked_div(self, other: Self) -> Option<Self> {
        u32::checked_div(self, other)
    }

    fn checked_rem(self, other: Self) -> (r: Option<Self>) {
        proof {
            if other != 0 {
                lemma_tmod_nonneg(self as int, other as int);
            }
        }
        u32::checked_rem(self, other)
    }

    fn checked_neg(self) -> Option<Self> {
        if self == 0 {
            Some(0)
        } else {
            None
        }
    }

    fn to_index(self) -> Option<usize> {
        if (self as u64) < (usize::MAX as u64) {
            Some(self as usize)
        } else {
            None
        }
    }

    fn to_parts(self) -> (bool, u128) {
        (false, self as u128)
    }

    fn from_parts(neg: bool, mag: u128) -> Option<Self> {
        if neg {
            if mag == 0 {
                Some(0)
            } else {
                None
            }
        } else {
            if mag <= u32::MAX as u128 {
                Some(mag as u32)
            } else {
                None
            }
        }
    }

    fn from_digit(d: u8) -> Self {
        d as u32
    }

    fn as_digit(self) -> u8 {
        self as u8
    }
}

impl Integer for u64 {
    open spec fn v(self) -> int {
        self as int
    }

    open spec fn min_v() -> int {
        0
    }

    open spec fn max_v() -> int {
        0xffff_ffff_ffff_ffff
    }

    proof fn lemma_range(self) {
    }

    proof fn lemma_range_shape() {
    }

    proof fn lemma_injective(a: Self, b: Self) {
    }

    fn zero() -> Self {
        0
    }

    fn one() -> Self {
        1
    }

    fn ten() -> Self {
        10
    }

    fn min_value() -> Self {
        u64::MIN
    }

    fn max_value() -> Self {
        u64::MAX
    }

    fn is_signed() -> bool {
        false
    }

    fn eq_value(self, other: Self) -> bool {
        self == other
    }

    fn lt_value(self, other: Self) -> bool {
        self < other
    }

    fn checked_add(self, other: Self) -> Option<Self> {
        u64::checked_add(self, other)
    }

    fn checked_sub(self, other: Self) -> Option<Self> {
        u64::checked_sub(self, other)
    }

    fn checked_mul(self, other: Self) -> Option<Self> {
        u64::checked_mul(self, other)
    }

    fn checked_div(self, other: Self) -> Option<Self> {
        u64::checked_div(self, other)
    }

    fn checked_rem(self, other: Self) -> (r: Option<Self>) {
        proof {
            if other != 0 {
                lemma_tmod_nonneg(self as int, other as int);
            }
        }
        u64::checked_rem(self, other)
    }

    fn checked_neg(self) -> Option<Self> {
        if self == 0 {
            Some(0)
        } else {
            None
        }
    }

    fn to_index(self) -> Option<usize> {
        if (self as u128) < (usize::MAX as u128) {
            Some(self as usize)
        } else {
            None
        }
    }

    fn to_parts(self) -> (bool, u128) {
        (false, self as u128)
    }

    fn from_parts(neg: bool, mag: u128) -> Option<Self> {
        if neg {
            if mag == 0 {
                Some(0)
            } else {
                None
            }
        } else {
            if mag <= u64::MAX as u128 {
                Some(mag as u64)
            } else {
                None
            }
        }
    }

    fn from_digit(d: u8) -> Self {
        d as u64
    }

    fn as_digit(self) -> u8 {
        self as u8
    }
}

impl Integer for u128 {
    open spec fn v(self) -> int {
        self as int
    }

    open spec fn min_v() -> int {
        0
    }

    open spec fn max_v() -> int {
        0xffff_ffff_ffff_ffff_ffff_ffff_ffff_ffff
    }

    proof fn lemma_range(self) {
    }

    proof fn lemma_range_shape() {
    }

    proof fn lemma_injective(a: Self, b: Self) {
    }

    fn zero() -> Self {
        0
    }

    fn one() -> Self {
        1
    }

    fn ten() -> Self {
        10
    }

    fn min_value() -> Self {
        u128::MIN
    }

    fn max_value() -> Self {
        u128::MAX
    }

    fn is_signed() -> bool {
        false
    }

    fn eq_value(self, other: Self) -> bool {
        self == other
    }

    fn lt_value(self, other: Self) -> bool {
        self < other
    }

    fn checked_add(self, other: Self) -> Option<Self> {
        u128::checked_add(self, other)
    }

    fn checked_sub(self, other: Self) -> Option<Self> {
        u128::checked_sub(self, other)
    }

    fn checked_mul(self, other: Self) -> Option<Self> {
        u128::checked_mul(self, other)
    }

    fn checked_div(self, other: Self) -> Option<Self> {
        u128::checked_div(self, other)
    }

    fn checked_rem(self, other: Self) -> (r: Option<Self>) {
        proof {
            if other != 0 {
                lemma_tmod_nonneg(self as int, other as int);
            }
        }
        u128::checked_rem(self, other)
    }

    fn checked_neg(self) -> Option<Self> {
        if self == 0 {
            Some(0)
        } else {
            None
        }
    }

    fn to_index(self) -> Option<usize> {
        if self < usize::MAX as u128 {
            Some(self as usize)
        } else {
            None
        }
    }

    fn to_parts(self) -> (bool, u128) {
        (false, self)
    }

    fn from_parts(neg: bool, mag: u128) -> Option<Self> {
        if neg {
            if mag == 0 {
                Some(0)
            } else {
                None
            }
        } else {
            Some(mag)
        }
    }

    fn from_digit(d: u8) -> Self {
        d as u128
    }

    fn as_digit(self) -> u8 {
        self as u8
    }
}

} // verus!
