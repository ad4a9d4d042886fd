//! Fixed-point resource representation for economic and mass conservation.
//!
//! All quantities are 64-bit signed integers of micro-units (1 unit = 1,000,000
//! micro-units); no floating point takes part in state accounting.

use vstd::prelude::*;
use vstd::string::*;
use vstd::std_specs::ops::{AddSpecImpl, SubSpecImpl, MulSpecImpl, DivSpecImpl};
use core::ops::{Add, Div, Mul, Sub};
use crate::error::{DomainError, DomainErrorView};
use crate::text::{int_decimal, zero_padded, push_i64_decimal, push_zero_padded};

verus! {

/// Micro-units per whole unit.
pub const RESOURCE_SCALE: i64 = 1_000_000;

/// True when `x` fits in a signed 64-bit integer.
pub open spec fn in_i64(x: int) -> bool {
    i64::MIN <= x <= i64::MAX
}

/// Integer division rounding toward zero, as Rust's `/` on signed integers does.
pub open spec fn trunc_div(x: int, d: int) -> int {
    if x == 0 {
        0
    } else if x > 0 && d > 0 {
        x / d
    } else if x < 0 && d < 0 {
        (-x) / (-d)
    } else if x < 0 {
        -((-x) / d)
    } else {
        -(x / (-d))
    }
}

/// Remainder matching `trunc_div`, as Rust's `%` on signed integers computes it.
pub open spec fn trunc_rem(x: int, d: int) -> int {
    x - d * trunc_div(x, d)
}

/// `x` clamped into the signed 64-bit range.
pub open spec fn clamp_i64(x: int) -> i64 {
    if x > i64::MAX {
        i64::MAX
    } else if x < i64::MIN {
        i64::MIN
    } else {
        x as i64
    }
}

/// Fixed-point integer representing an exact resource quantity in micro-units.
#[derive(Debug, Clone, Copy, PartialEq, Eq, Structural, PartialOrd, Ord, Hash, Default)]
pub struct ResourceAmount(pub i64);

/// Message of the overflow error of `ResourceAmount::from_units`.
pub open spec fn from_units_overflow_message(units: i64) -> Seq<char> {
    "from_units("@ + int_decimal(units as int) + ") overflowed"@
}

/// Message of the overflow error of a checked binary operation.
pub open spec fn binary_overflow_message(a: i64, op: Seq<char>, b: i64) -> Seq<char> {
    int_decimal(a as int) + op + int_decimal(b as int)
}

/// Exact result of `checked_mul_ratio` as an integer (before the range check).
pub open spec fn ratio_quotient(amount: i64, numerator: i64, denominator: i64) -> int {
    trunc_div(amount * numerator, denominator as int)
}

/// Whether `checked_mul_ratio` succeeds.
pub open spec fn ratio_ok(amount: i64, numerator: i64, denominator: i64) -> bool {
    denominator != 0 && in_i64(ratio_quotient(amount, numerator, denominator))
}

/// Display text: whole units, a point, and six digits of the fractional micro-units.
pub open spec fn amount_display(raw: i64) -> Seq<char> {
    int_decimal(trunc_div(raw as int, RESOURCE_SCALE as int))
        + "."@
        + zero_padded(abs_int(trunc_rem(raw as int, RESOURCE_SCALE as int)) as nat, 6)
}

/// Absolute value of an integer.
pub open spec fn abs_int(x: int) -> int {
    if x < 0 { -x } else { x }
}

proof fn lemma_trunc_div_bounds(x: int, d: int)
    requires
        d > 0,
    ensures
        x >= 0 ==> 0 <= trunc_div(x, d) <= x,
        x < 0 ==> x <= trunc_div(x, d) <= 0,
        abs_int(trunc_rem(x, d)) < d,
{
    if x > 0 {
        vstd::arithmetic::div_mod::lemma_div_pos_is_pos(x, d);
        vstd::arithmetic::div_mod::lemma_div_is_ordered_by_denominator(x, 1, d);
        vstd::arithmetic::div_mod::lemma_fundamental_div_mod(x, d);
        assert(0 <= x % d < d) by {
            vstd::arithmetic::div_mod::lemma_mod_pos_bound(x, d);
        }
    } else if x < 0 {
        vstd::arithmetic::div_mod::lemma_div_pos_is_pos(-x, d);
        vstd::arithmetic::div_mod::lemma_div_is_ordered_by_denominator(-x, 1, d);
        vstd::arithmetic::div_mod::lemma_fundamental_div_mod(-x, d);
        assert(0 <= (-x) % d < d) by {
            vstd::arithmetic::div_mod::lemma_mod_pos_bound(-x, d);
        }
        assert(trunc_rem(x, d) == -((-x) % d)) by (nonlinear_arith)
            requires
                trunc_div(x, d) == -((-x) / d),
                -x == d * ((-x) / d) + (-x) % d,
                trunc_rem(x, d) == x - d * trunc_div(x, d),
        ;
    }
}

impl ResourceAmount {
    /// Constructs a `ResourceAmount` directly from raw micro-units.
    pub fn from_raw(raw: i64) -> (r: Self)
        ensures
            r.0 == raw,
    {
        ResourceAmount(raw)
    }

    /// The zero amount.
    pub fn zero() -> (r: Self)
        ensures
            r.0 == 0,
    {
        ResourceAmount(0)
    }

    /// One whole unit (1,000,000 micro-units).
    pub fn one() -> (r: Self)
        ensures
            r.0 == RESOURCE_SCALE,
    {
        ResourceAmount(RESOURCE_SCALE)
    }

    /// Returns the raw 64-bit micro-unit value.
    pub fn to_raw(self) -> (r: i64)
        ensures
            r == self.0,
    {
        self.0
    }

    /// Constructs a `ResourceAmount` from whole units; fails when `units * SCALE` leaves `i64`.
    pub fn from_units(units: i64) -> (r: Result<Self, DomainError>)
        ensures
            match r {
                Ok(a) => in_i64(units * RESOURCE_SCALE) && a.0 == units * RESOURCE_SCALE,
                Err(e) => !in_i64(units * RESOURCE_SCALE)
                    && e@ == DomainErrorView::ResourceOverflow(from_units_overflow_message(units)),
            },
    {
        match units.checked_mul(RESOURCE_SCALE) {
            Some(v) => Ok(ResourceAmount(v)),
            None => {
                let mut m = String::new();
                m.append("from_units(");
                push_i64_decimal(&mut m, units);
                m.append(") overflowed");
                assert(m@ =~= from_units_overflow_message(units));
                Err(DomainError::ResourceOverflow(m))
            },
        }
    }

    /// Checked addition; fails exactly when the sum leaves `i64`.
    pub fn checked_add(self, other: Self) -> (r: Result<Self, DomainError>)
        ensures
            match r {
                Ok(a) => in_i64(self.0 + other.0) && a.0 == self.0 + other.0,
                Err(e) => !in_i64(self.0 + other.0)
                    && e@ == DomainErrorView::ResourceOverflow(binary_overflow_message(self.0, " + "@, other.0)),
            },
    {
        match self.0.checked_add(other.0) {
            Some(v) => Ok(ResourceAmount(v)),
            None => {
                let mut m = String::new();
                push_i64_decimal(&mut m, self.0);
                m.append(" + ");
                push_i64_decimal(&mut m, other.0);
                assert(m@ =~= binary_overflow_message(self.0, " + "@, other.0));
                Err(DomainError::ResourceOverflow(m))
            },
        }
    }

    /// Checked subtraction; fails exactly when the difference leaves `i64`.
    pub fn checked_sub(self, other: Self) -> (r: Result<Self, DomainError>)
        ensures
            match r {
                Ok(a) => in_i64(self.0 - other.0) && a.0 == self.0 - other.0,
                Err(e) => !in_i64(self.0 - other.0)
                    && e@ == DomainErrorView::ResourceOverflow(binary_overflow_message(self.0, " - "@, other.0)),
            },
    {
        match self.0.checked_sub(other.0) {
            Some(v) => Ok(ResourceAmount(v)),
            None => {
                let mut m = String::new();
                push_i64_decimal(&mut m, self.0);
                m.append(" - ");
                push_i64_decimal(&mut m, other.0);
                assert(m@ =~= binary_overflow_message(self.0, " - "@, other.0));
                Err(DomainError::ResourceOverflow(m))
            },
        }
    }

    /// Saturating addition: the sum clamped into `i64`.
    pub fn saturating_add(self, other: Self) -> (r: Self)
        ensures
            r.0 == clamp_i64(self.0 + other.0),
    {
        match self.0.checked_add(other.0) {
            Some(v) => ResourceAmount(v),
            None => if other.0 > 0 { ResourceAmount(i64::MAX) } else { ResourceAmount(i64::MIN) },
        }
    }

    /// Saturating subtraction: the difference clamped into `i64`.
    pub fn saturating_sub(self, other: Self) -> (r: Self)
        ensures
            r.0 == clamp_i64(self.0 - other.0),
    {
        match self.0.checked_sub(other.0) {
            Some(v) => ResourceAmount(v),
            None => if other.0 < 0 { ResourceAmount(i64::MAX) } else { ResourceAmount(i64::MIN) },
        }
    }

    /// Multiplies by `numerator / denominator` with a 128-bit intermediate, rounding toward zero.
    /// Fails on a zero denominator or when the result leaves `i64`.
    pub fn checked_mul_ratio(self, numerator: i64, denominator: i64) -> (r: Result<Self, DomainError>)
        ensures
            match r {
                Ok(a) => ratio_ok(self.0, numerator, denominator)
                    && a.0 == ratio_quotient(self.0, numerator, denominator),
                Err(e) => !ratio_ok(self.0, numerator, denominator) && (
                    if denominator == 0 {
                        e@ == DomainErrorView::ResourceOverflow("Division by zero in ratio"@)
                    } else {
                        e@ == DomainErrorView::ResourceOverflow("Ratio result out of i64 range"@)
                    }),
            },
    {
        if denominator == 0 {
            return Err(DomainError::ResourceOverflow(String::from_str("Division by zero in ratio")));
        }
        let wide_amount = self.0 as i128;
        let wide_num = numerator as i128;
        let wide_den = denominator as i128;
        assert(-0x4000_0000_0000_0000_0000_0000_0000_0000 <= (self.0 as int) * (numerator as int)
            <= 0x4000_0000_0000_0000_0000_0000_0000_0000) by (nonlinear_arith)
            requires
                i64::MIN <= self.0 <= i64::MAX,
                i64::MIN <= numerator <= i64::MAX,
        ;
        let product = match wide_amount.checked_mul(wide_num) {
            Some(p) => p,
            None => {
                return Err(DomainError::ResourceOverflow(String::from_str("Ratio multiplication overflow")));
            },
        };
        let quotient = match product.checked_div(wide_den) {
            Some(q) => q,
            None => {
                return Err(DomainError::ResourceOverflow(String::from_str("Ratio result out of i64 range")));
            },
        };
        assert(quotient == ratio_quotient(self.0, numerator, denominator));
        if quotient < i64::MIN as i128 || quotient > i64::MAX as i128 {
            Err(DomainError::ResourceOverflow(String::from_str("Ratio result out of i64 range")))
        } else {
            Ok(ResourceAmount(quotient as i64))
        }
    }

    /// Validates that the amount is non-negative.
    pub fn ensure_non_negative(self) -> (r: Result<Self, DomainError>)
        ensures
            match r {
                Ok(a) => self.0 >= 0 && a == self,
                Err(e) => self.0 < 0 && e@ == DomainErrorView::NegativeResourceAmount(self.0),
            },
    {
        if self.0 < 0 {
            Err(DomainError::NegativeResourceAmount(self.0))
        } else {
            Ok(self)
        }
    }

    /// Returns true if the amount is zero.
    pub fn is_zero(self) -> (r: bool)
        ensures
            r == (self.0 == 0),
    {
        self.0 == 0
    }

    /// Returns true if the amount is strictly positive.
    pub fn is_positive(self) -> (r: bool)
        ensures
            r == (self.0 > 0),
    {
        self.0 > 0
    }

    /// The smaller of two amounts.
    pub fn min_amount(self, other: Self) -> (r: Self)
        ensures
            r.0 == if self.0 <= other.0 { self.0 } else { other.0 },
    {
        if self.0 <= other.0 { self } else { other }
    }

    /// Display text `whole.ffffff` (six fractional digits, sign carried by the whole part).
    pub fn to_display_string(self) -> (r: String)
        ensures
            r@ == amount_display(self.0),
    {
        let whole = self.0 / RESOURCE_SCALE;
        let rem = self.0 % RESOURCE_SCALE;
        proof {
            lemma_trunc_div_bounds(self.0 as int, RESOURCE_SCALE as int);
        }
        assert(whole == trunc_div(self.0 as int, RESOURCE_SCALE as int));
        assert(rem == trunc_rem(self.0 as int, RESOURCE_SCALE as int));
        let frac: u64 = if rem < 0 { (0 - rem) as u64 } else { rem as u64 };
        let mut s = String::new();
        push_i64_decimal(&mut s, whole);
        s.append(".");
        push_zero_padded(&mut s, frac, 6);
        assert(s@ =~= amount_display(self.0));
        s
    }
}

impl AddSpecImpl for ResourceAmount {
    open spec fn obeys_add_spec() -> bool {
        true
    }

    open spec fn add_req(self, rhs: ResourceAmount) -> bool {
        in_i64(self.0 + rhs.0)
    }

    open spec fn add_spec(self, rhs: ResourceAmount) -> ResourceAmount {
        ResourceAmount((self.0 + rhs.0) as i64)
    }
}

impl Add for ResourceAmount {
    type Output = Self;

    fn add(self, rhs: Self) -> (r: Self) {
        ResourceAmount(self.0 + rhs.0)
    }
}

impl SubSpecImpl for ResourceAmount {
    open spec fn obeys_sub_spec() -> bool {
        true
    }

    open spec fn sub_req(self, rhs: ResourceAmount) -> bool {
        in_i64(self.0 - rhs.0)
    }

    open spec fn sub_spec(self, rhs: ResourceAmount) -> ResourceAmount {
        ResourceAmount((self.0 - rhs.0) as i64)
    }
}

impl Sub for ResourceAmount {
    type Output = Self;

    fn sub(self, rhs: Self) -> (r: Self) {
        ResourceAmount(self.0 - rhs.0)
    }
}

impl MulSpecImpl<i64> for ResourceAmount {
    open spec fn obeys_mul_spec() -> bool {
        true
    }

    open spec fn mul_req(self, rhs: i64) -> bool {
        in_i64(self.0 * rhs)
    }

    open spec fn mul_spec(self, rhs: i64) -> ResourceAmount {
        ResourceAmount((self.0 * rhs) as i64)
    }
}

impl Mul<i64> for ResourceAmount {
    type Output = Self;

    fn mul(self, rhs: i64) -> (r: Self) {
        ResourceAmount(self.0 * rhs)
    }
}

impl DivSpecImpl<i64> for ResourceAmount {
    open spec fn obeys_div_spec() -> bool {
        true
    }

    open spec fn div_req(self, rhs: i64) -> bool {
        rhs != 0 && in_i64(trunc_div(self.0 as int, rhs as int))
    }

    open spec fn div_spec(self, rhs: i64) -> ResourceAmount {
        ResourceAmount(trunc_div(self.0 as int, rhs as int) as i64)
    }
}

impl Div<i64> for ResourceAmount {
    type Output = Self;

    fn div(self, rhs: i64) -> (r: Self) {
        let q = self.0.checked_div(rhs);
        ResourceAmount(q.unwrap())
    }
}

/// Checked subtraction undoes checked addition: when `a + b` fits, so does `(a + b) - b`,
/// and it is `a`.
pub proof fn law_checked_add_sub_inverse(a: i64, b: i64)
    requires
        in_i64(a + b),
    ensures
        in_i64((a + b) - b),
        (a + b) - b == a,
{
}

/// Saturating results agree with exact arithmetic whenever it fits, and otherwise sit at
/// the bound on the side of the overflow.
pub proof fn law_saturating_matches_exact(a: i64, b: i64)
    ensures
        in_i64(a + b) ==> clamp_i64(a + b) == a + b,
        a + b > i64::MAX ==> clamp_i64(a + b) == i64::MAX,
        a + b < i64::MIN ==> clamp_i64(a + b) == i64::MIN,
        in_i64(a - b) ==> clamp_i64(a - b) == a - b,
{
}

/// A ratio of one (`n / n`, `n != 0`) leaves any amount unchanged.
pub proof fn law_unit_ratio_is_identity(amount: i64, n: i64)
    requires
        n != 0,
    ensures
        ratio_ok(amount, n, n),
        ratio_quotient(amount, n, n) == amount,
{
    let p = amount as int * n as int;
    if amount == 0 {
        assert(p == 0) by (nonlinear_arith)
            requires
                amount == 0,
                p == amount as int * n as int,
        ;
    } else if amount > 0 && n > 0 {
        assert(p > 0) by (nonlinear_arith)
            requires
                amount > 0,
                n > 0,
                p == amount as int * n as int,
        ;
        vstd::arithmetic::div_mod::lemma_div_by_multiple(amount as int, n as int);
        assert(amount as int * n as int == n as int * amount as int) by (nonlinear_arith);
    } else if amount < 0 && n < 0 {
        assert(p > 0) by (nonlinear_arith)
            requires
                amount < 0,
                n < 0,
                p == amount as int * n as int,
        ;
        assert(-p == (-amount) * (-n) * -1) by (nonlinear_arith)
            requires
                p == amount as int * n as int,
        ;
        vstd::arithmetic::div_mod::lemma_div_by_multiple(-amount, -n);
        assert(p == (-amount) * (-n)) by (nonlinear_arith)
            requires
                p == amount as int * n as int,
        ;
    } else if amount < 0 {
        assert(p < 0) by (nonlinear_arith)
            requires
                amount < 0,
                n > 0,
                p == amount as int * n as int,
        ;
        vstd::arithmetic::div_mod::lemma_div_by_multiple(-amount, n as int);
        assert(-p == (-amount) * n) by (nonlinear_arith)
            requires
                p == amount as int * n as int,
        ;
    } else {
        assert(p < 0) by (nonlinear_arith)
            requires
                amount > 0,
                n < 0,
                p == amount as int * n as int,
        ;
        vstd::arithmetic::div_mod::lemma_div_by_multiple(amount as int, -n);
        assert(-p == amount * (-n)) by (nonlinear_arith)
            requires
                p == amount as int * n as int,
        ;
    }
}

/// Adds `rhs` in place; the sum must fit in `i64`.
pub fn add_assign_amount(target: &mut ResourceAmount, rhs: ResourceAmount)
    requires
        in_i64(old(target).0 + rhs.0),
    ensures
        final(target).0 == old(target).0 + rhs.0,
{
    target.0 = target.0 + rhs.0;
}

/// Subtracts `rhs` in place; the difference must fit in `i64`.
pub fn sub_assign_amount(target: &mut ResourceAmount, rhs: ResourceAmount)
    requires
        in_i64(old(target).0 - rhs.0),
    ensures
        final(target).0 == old(target).0 - rhs.0,
{
    target.0 = target.0 - rhs.0;
}

} // verus!
