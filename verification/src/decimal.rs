//! Exact decimal amounts: a 96-bit mantissa and a scale of at most 28 places.
//!
//! The arithmetic is that of the `rust_decimal` crate. A number is kept as its mantissa and scale,
//! and every operation hands those to the crate and takes its answer back. Operations that can
//! leave the range of a decimal return `None` there.
use crate::table::Stored;
use vstd::prelude::*;

verus! {

/// Ten to the power `n`.
pub open spec fn pow10(n: nat) -> int
    decreases n,
{
    if n == 0 {
        1
    } else {
        10 * pow10((n - 1) as nat)
    }
}

/// The largest mantissa: 2^96 - 1.
pub const MAX_MANTISSA: i128 = 79228162514264337593543950335;

/// The largest scale.
pub const MAX_SCALE: u32 = 28;

/// Whether a mantissa and a scale make a decimal.
pub open spec fn valid_parts(mantissa: int, scale: int) -> bool {
    &&& -MAX_MANTISSA <= mantissa <= MAX_MANTISSA
    &&& 0 <= scale <= MAX_SCALE
}

/// The number that a mantissa and a scale stand for, counted in units of 10^-28.
pub open spec fn parts_value(mantissa: int, scale: int) -> int {
    mantissa * pow10((28 - scale) as nat)
}

/// One, counted in units of 10^-28.
pub open spec fn unit() -> int {
    pow10(28)
}

/// Whether a number (in units of 10^-28) is between the smallest and the largest decimal.
pub open spec fn in_range(v: int) -> bool {
    abs_int(v) <= MAX_MANTISSA * unit()
}

/// Whether a number (in units of 10^-28) is held exactly by some decimal.
pub open spec fn representable(v: int) -> bool {
    exists|m: int, s: int| #[trigger] valid_parts(m, s) && v == parts_value(m, s)
}

pub open spec fn abs_int(v: int) -> int {
    if v < 0 {
        -v
    } else {
        v
    }
}

pub open spec fn max_int(a: int, b: int) -> int {
    if a < b {
        b
    } else {
        a
    }
}

/// `m` divided by `p`, rounded to the nearest integer, ties to the even one.
pub open spec fn half_even(m: int, p: int) -> int {
    let q = abs_int(m) / p;
    let r = abs_int(m) % p;
    let n = if 2 * r > p || (2 * r == p && q % 2 == 1) {
        q + 1
    } else {
        q
    };
    if m < 0 {
        -n
    } else {
        n
    }
}

/// `m` divided by `p`, rounded toward zero.
pub open spec fn toward_zero(m: int, p: int) -> int {
    if m < 0 {
        -(abs_int(m) / p)
    } else {
        abs_int(m) / p
    }
}

/// The decimal digits of `n`, most significant first, padded with zeros to `width`.
pub open spec fn padded_digits(n: nat, width: nat) -> Seq<char>
    decreases n, width,
{
    if n == 0 && width == 0 {
        Seq::empty()
    } else {
        padded_digits(n / 10, if width == 0 { 0 } else { (width - 1) as nat }).push(digit_char(n % 10))
    }
}

/// The character of a digit below ten.
pub open spec fn digit_char(d: nat) -> char {
    (48 + d) as char
}

/// A decimal as text: every digit of its scale is written, trailing zeros too.
pub open spec fn parts_text(mantissa: int, scale: int) -> Seq<char> {
    let digits = padded_digits(abs_int(mantissa) as nat, (scale + 1) as nat);
    let whole = digits.len() - scale;
    let body = if scale == 0 {
        digits
    } else {
        digits.take(whole).push('.') + digits.skip(whole)
    };
    if mantissa < 0 {
        seq!['-'] + body
    } else {
        body
    }
}

/// What `rust_decimal::Decimal::checked_add` returns, as mantissa and scale.
pub uninterp spec fn sum_parts(am: int, asc: int, bm: int, bsc: int) -> Option<(i128, u32)>;

/// What `rust_decimal::Decimal::checked_sub` returns, as mantissa and scale.
pub uninterp spec fn difference_parts(am: int, asc: int, bm: int, bsc: int) -> Option<(i128, u32)>;

/// What `rust_decimal::Decimal::checked_mul` returns, as mantissa and scale.
pub uninterp spec fn product_parts(am: int, asc: int, bm: int, bsc: int) -> Option<(i128, u32)>;

/// What `rust_decimal::Decimal::checked_div` returns, as mantissa and scale.
pub uninterp spec fn quotient_parts(am: int, asc: int, bm: int, bsc: int) -> Option<(i128, u32)>;

/// What `rust_decimal::Decimal::checked_rem` returns, as mantissa and scale.
pub uninterp spec fn remainder_parts(am: int, asc: int, bm: int, bsc: int) -> Option<(i128, u32)>;

/// What `rust_decimal::Decimal::from_str` makes of a text, as mantissa and scale, or the error it
/// prints.
pub uninterp spec fn parsed_parts(text: Seq<char>) -> Result<(i128, u32), Seq<char>>;

/// What `rust_decimal::Decimal::from_scientific` reads from a text: mantissa and scale.
pub uninterp spec fn scientific_parts(text: Seq<char>) -> Option<(i128, u32)>;

/// An optional pair of mantissa and scale is a decimal where it is present.
pub open spec fn valid_option(r: Option<(i128, u32)>) -> bool {
    r matches Some(p) ==> valid_parts(p.0 as int, p.1 as int)
}

/// The number that an optional pair of mantissa and scale stands for, where it is present.
pub open spec fn option_value(r: Option<(i128, u32)>) -> int {
    match r {
        Some(p) => parts_value(p.0 as int, p.1 as int),
        None => 0,
    }
}

/// The answer is the exact number wherever a decimal can hold it.
pub open spec fn exact_if_held(r: Option<(i128, u32)>, exact: int) -> bool {
    representable(exact) ==> r is Some && option_value(r) == exact
}

/// A product of two numbers, `exact` in units of 10^-56: it is there if it is within the range of
/// decimals, and exact if a decimal can hold it.
pub open spec fn product_claims(r: Option<(i128, u32)>, exact: int) -> bool {
    &&& exact % unit() == 0 ==> exact_if_held(r, exact / unit())
    &&& abs_int(exact) <= MAX_MANTISSA * unit() * unit() ==> r is Some
}

/// A quotient of `a` by `b`: it is there if it is within the range of decimals, exact if a decimal
/// can hold it, and never off by more than 10^-28 of the larger of one and the quotient.
pub open spec fn quotient_claims(r: Option<(i128, u32)>, a: int, b: int) -> bool {
    &&& b != 0 && (a * unit()) % b == 0 ==> exact_if_held(r, (a * unit()) / b)
    &&& b != 0 && abs_int(a) <= abs_int(b) * MAX_MANTISSA ==> r is Some
    &&& r is Some ==> abs_int(option_value(r) * b - a * unit()) <= max_int(abs_int(a), abs_int(b))
}

/// The answer has the sign of `n`, or is zero.
pub open spec fn signed_as(r: Option<(i128, u32)>, n: int) -> bool {
    &&& r is Some && n >= 0 ==> option_value(r) >= 0
    &&& r is Some && n <= 0 ==> option_value(r) <= 0
}

/// Whether two decimals keep within the mantissa when written at their common scale.
pub open spec fn aligned(am: int, asc: int, bm: int, bsc: int) -> bool {
    let common = max_int(asc, bsc);
    &&& am * pow10((common - asc) as nat) <= MAX_MANTISSA
    &&& bm * pow10((common - bsc) as nat) <= MAX_MANTISSA
}

/// Calls `rust_decimal::Decimal::checked_add`. Claimed: the answer depends on the two numbers
/// alone, is a decimal, is there for every sum within the range of decimals, and is the exact sum
/// wherever a decimal can hold it.
#[verifier::external_body]
fn add_parts(am: i128, asc: u32, bm: i128, bsc: u32) -> (r: Option<(i128, u32)>)
    requires
        valid_parts(am as int, asc as int),
        valid_parts(bm as int, bsc as int),
    ensures
        r == sum_parts(am as int, asc as int, bm as int, bsc as int),
        valid_option(r),
        exact_if_held(r, parts_value(am as int, asc as int) + parts_value(bm as int, bsc as int)),
        in_range(parts_value(am as int, asc as int) + parts_value(bm as int, bsc as int)) ==> r is Some,
{
    let a = rust_decimal::Decimal::from_i128_with_scale(am, asc);
    let b = rust_decimal::Decimal::from_i128_with_scale(bm, bsc);
    a.checked_add(b).map(|d| (d.mantissa(), d.scale()))
}

/// Calls `rust_decimal::Decimal::checked_sub`. Claimed: the answer depends on the two numbers
/// alone, is a decimal, is there for every difference within the range of decimals, and is the exact
/// difference wherever a decimal can hold it.
#[verifier::external_body]
fn sub_parts(am: i128, asc: u32, bm: i128, bsc: u32) -> (r: Option<(i128, u32)>)
    requires
        valid_parts(am as int, asc as int),
        valid_parts(bm as int, bsc as int),
    ensures
        r == difference_parts(am as int, asc as int, bm as int, bsc as int),
        valid_option(r),
        exact_if_held(r, parts_value(am as int, asc as int) - parts_value(bm as int, bsc as int)),
        in_range(parts_value(am as int, asc as int) - parts_value(bm as int, bsc as int)) ==> r is Some,
{
    let a = rust_decimal::Decimal::from_i128_with_scale(am, asc);
    let b = rust_decimal::Decimal::from_i128_with_scale(bm, bsc);
    a.checked_sub(b).map(|d| (d.mantissa(), d.scale()))
}

/// Calls `rust_decimal::Decimal::checked_mul`. Claimed: the answer depends on the two numbers
/// alone, is a decimal, is there for every product within the range of decimals, has the sign of
/// the product (or is zero), and is the exact product wherever a decimal can hold it.
#[verifier::external_body]
fn mul_parts(am: i128, asc: u32, bm: i128, bsc: u32) -> (r: Option<(i128, u32)>)
    requires
        valid_parts(am as int, asc as int),
        valid_parts(bm as int, bsc as int),
    ensures
        r == product_parts(am as int, asc as int, bm as int, bsc as int),
        valid_option(r),
        signed_as(r, am * bm),
        product_claims(r, parts_value(am as int, asc as int) * parts_value(bm as int, bsc as int)),
{
    let a = rust_decimal::Decimal::from_i128_with_scale(am, asc);
    let b = rust_decimal::Decimal::from_i128_with_scale(bm, bsc);
    a.checked_mul(b).map(|d| (d.mantissa(), d.scale()))
}

/// Calls `rust_decimal::Decimal::checked_div`. Claimed: the answer depends on the two numbers
/// alone and is a decimal; there is none for a zero divisor and there is one for every quotient
/// within the range of decimals; it has the sign of the quotient (or is zero); it is the exact
/// quotient wherever a decimal can hold it; and it is off by no more than 10^-28 of the larger
/// of one and the quotient.
#[verifier::external_body]
fn div_parts(am: i128, asc: u32, bm: i128, bsc: u32) -> (r: Option<(i128, u32)>)
    requires
        valid_parts(am as int, asc as int),
        valid_parts(bm as int, bsc as int),
    ensures
        r == quotient_parts(am as int, asc as int, bm as int, bsc as int),
        valid_option(r),
        bm == 0 ==> r is None,
        signed_as(r, am * bm),
        quotient_claims(r, parts_value(am as int, asc as int), parts_value(bm as int, bsc as int)),
{
    let a = rust_decimal::Decimal::from_i128_with_scale(am, asc);
    let b = rust_decimal::Decimal::from_i128_with_scale(bm, bsc);
    a.checked_div(b).map(|d| (d.mantissa(), d.scale()))
}

/// Calls `rust_decimal::Decimal::checked_rem`. Claimed: the answer depends on the two numbers
/// alone and is a decimal; there is none for a zero divisor; and for a dividend that is not
/// negative and a positive divisor, both of which a decimal can hold at their common scale, it is
/// the exact remainder.
#[verifier::external_body]
fn rem_parts(am: i128, asc: u32, bm: i128, bsc: u32) -> (r: Option<(i128, u32)>)
    requires
        valid_parts(am as int, asc as int),
        valid_parts(bm as int, bsc as int),
    ensures
        r == remainder_parts(am as int, asc as int, bm as int, bsc as int),
        valid_option(r),
        bm == 0 ==> r is None,
        am >= 0 && bm > 0 && aligned(am as int, asc as int, bm as int, bsc as int) ==> r is Some && option_value(
            r,
        ) == parts_value(am as int, asc as int) % parts_value(bm as int, bsc as int),
{
    let a = rust_decimal::Decimal::from_i128_with_scale(am, asc);
    let b = rust_decimal::Decimal::from_i128_with_scale(bm, bsc);
    a.checked_rem(b).map(|d| (d.mantissa(), d.scale()))
}

/// Calls `<` on two `rust_decimal::Decimal`s. Claimed: it compares the numbers, whatever their
/// scales.
#[verifier::external_body]
fn less_parts(am: i128, asc: u32, bm: i128, bsc: u32) -> (r: bool)
    requires
        valid_parts(am as int, asc as int),
        valid_parts(bm as int, bsc as int),
    ensures
        r == (parts_value(am as int, asc as int) < parts_value(bm as int, bsc as int)),
{
    rust_decimal::Decimal::from_i128_with_scale(am, asc) < rust_decimal::Decimal::from_i128_with_scale(bm, bsc)
}

/// Calls `rust_decimal::Decimal::floor`. Claimed: a whole number stays as it is; of any other the
/// answer is the greatest integer below it, with scale zero.
#[verifier::external_body]
fn floor_parts(m: i128, s: u32) -> (r: (i128, u32))
    requires
        valid_parts(m as int, s as int),
    ensures
        valid_parts(r.0 as int, r.1 as int),
        r.1 == 0,
        r.0 == m as int / pow10(s as nat),
{
    let d = rust_decimal::Decimal::from_i128_with_scale(m, s).floor();
    (d.mantissa(), d.scale())
}

/// Calls `rust_decimal::Decimal::ceil`. Claimed: the answer is the least integer that is not below
/// the number, with scale zero.
#[verifier::external_body]
fn ceil_parts(m: i128, s: u32) -> (r: (i128, u32))
    requires
        valid_parts(m as int, s as int),
    ensures
        valid_parts(r.0 as int, r.1 as int),
        r.1 == 0,
        r.0 == -(-(m as int) / pow10(s as nat)),
{
    let d = rust_decimal::Decimal::from_i128_with_scale(m, s).ceil();
    (d.mantissa(), d.scale())
}

/// Calls `rust_decimal::Decimal::round_dp`. Claimed: a number of at most `dp` places stays as it
/// is; any other is rounded to the nearest one of `dp` places, ties to the even digit.
#[verifier::external_body]
fn round_parts(m: i128, s: u32, dp: u32) -> (r: (i128, u32))
    requires
        valid_parts(m as int, s as int),
    ensures
        valid_parts(r.0 as int, r.1 as int),
        s <= dp ==> r == (m, s),
        s > dp ==> r.1 == dp && r.0 == half_even(m as int, pow10((s - dp) as nat)),
{
    let d = rust_decimal::Decimal::from_i128_with_scale(m, s).round_dp(dp);
    (d.mantissa(), d.scale())
}

/// Calls `rust_decimal::Decimal::round_dp_with_strategy` with `RoundingStrategy::ToZero`. Claimed:
/// a number of at most `dp` places stays as it is; of any other the further places are dropped.
#[verifier::external_body]
fn truncate_parts(m: i128, s: u32, dp: u32) -> (r: (i128, u32))
    requires
        valid_parts(m as int, s as int),
    ensures
        valid_parts(r.0 as int, r.1 as int),
        s <= dp ==> r == (m, s),
        s > dp ==> r.1 == dp && r.0 == toward_zero(m as int, pow10((s - dp) as nat)),
{
    let d = rust_decimal::Decimal::from_i128_with_scale(m, s);
    let t = d.round_dp_with_strategy(dp, rust_decimal::RoundingStrategy::ToZero);
    (t.mantissa(), t.scale())
}

/// Calls `rust_decimal::Decimal::normalize`. Claimed: the number stays the same and its scale is
/// the smallest one that holds it.
#[verifier::external_body]
fn normal_parts(m: i128, s: u32) -> (r: (i128, u32))
    requires
        valid_parts(m as int, s as int),
    ensures
        valid_parts(r.0 as int, r.1 as int),
        r.1 <= s,
        m == r.0 * pow10((s - r.1) as nat),
        r.1 == 0 || r.0 as int % 10 != 0,
{
    let d = rust_decimal::Decimal::from_i128_with_scale(m, s).normalize();
    (d.mantissa(), d.scale())
}

/// Calls `rust_decimal::Decimal::from_str`. Claimed: whether a text is a number, and which, and what
/// is printed of one that is none, depends on the text alone. The grammar is left unsaid.
#[verifier::external_body]
fn parse_parts(text: &str) -> (r: Result<(i128, u32), String>)
    ensures
        match parsed_parts(text@) {
            Ok(p) => r == Ok::<(i128, u32), String>(p) && valid_parts(p.0 as int, p.1 as int),
            Err(m) => r matches Err(e) && e@ == m,
        },
{
    match text.parse::<rust_decimal::Decimal>() {
        Ok(d) => Ok((d.mantissa(), d.scale())),
        Err(e) => Err(e.to_string()),
    }
}

/// Calls `rust_decimal::Decimal::from_scientific`. Claimed: whether a text is a number with an
/// exponent, and which, depends on the text alone. The grammar is left unsaid.
#[verifier::external_body]
fn scientific(text: &str) -> (r: Option<(i128, u32)>)
    ensures
        r == scientific_parts(text@),
        valid_option(r),
{
    rust_decimal::Decimal::from_scientific(text).ok().map(|d| (d.mantissa(), d.scale()))
}

/// Calls `to_string` of `rust_decimal::Decimal`. Claimed: the text has every digit of the scale.
#[verifier::external_body]
fn print_parts(m: i128, s: u32) -> (r: String)
    requires
        valid_parts(m as int, s as int),
    ensures
        r@ == parts_text(m as int, s as int),
{
    rust_decimal::Decimal::from_i128_with_scale(m, s).to_string()
}

/// A decimal number.
#[derive(Debug, Clone, Copy)]
pub struct Decimal {
    mantissa: i128,
    scale: u32,
}

impl View for Decimal {
    type V = Decimal;

    open spec fn view(&self) -> Decimal {
        *self
    }
}

impl Stored for Decimal {
    open spec fn sound(&self) -> bool {
        true
    }
}

/// The decimal `mantissa` / 10^`scale`.
pub closed spec fn dec(mantissa: int, scale: int) -> Decimal {
    Decimal { mantissa: mantissa as i128, scale: scale as u32 }
}

/// The decimal that an answer is, where the answer is one and is as claimed of it.
pub open spec fn as_claimed(r: Option<(i128, u32)>, claims: bool) -> Option<Decimal> {
    if valid_option(r) && claims {
        from_parts(r)
    } else {
        None
    }
}

/// The decimal made of an optional mantissa and scale.
pub open spec fn from_parts(r: Option<(i128, u32)>) -> Option<Decimal> {
    match r {
        Some(p) => Some(dec(p.0 as int, p.1 as int)),
        None => None,
    }
}

/// Mantissa and scale without trailing zeros behind the point.
pub open spec fn without_zeros(m: int, s: int) -> (int, int)
    decreases s,
{
    if s > 0 && m % 10 == 0 {
        without_zeros(m / 10, s - 1)
    } else {
        (m, s)
    }
}

proof fn lemma_without_zeros(m: int, s: int, n: int, t: int)
    requires
        0 <= t <= s,
        m == n * pow10((s - t) as nat),
        t == 0 || n % 10 != 0,
    ensures
        without_zeros(m, s) == (n, t),
    decreases s - t,
{
    if t < s {
        let k = pow10((s - t - 1) as nat);
        let q = n * k;
        assert(pow10((s - t) as nat) == 10 * k);
        assert(m == 10 * q) by (nonlinear_arith)
            requires
                m == n * (10 * k),
                q == n * k,
        ;
        assert(m % 10 == 0 && m / 10 == q);
        lemma_without_zeros(q, s - 1, n, t);
    }
}

/// `dec` keeps its parts.
pub broadcast proof fn lemma_dec_parts(m: int, s: int)
    requires
        valid_parts(m, s),
    ensures
        (#[trigger] dec(m, s)).mantissa() == m,
        dec(m, s).scale() == s,
        dec(m, s).value() == parts_value(m, s),
{
}

/// The sum of two optional decimals.
pub open spec fn opt_plus(a: Option<Decimal>, b: Option<Decimal>) -> Option<Decimal> {
    match (a, b) {
        (Some(x), Some(y)) => x.plus(y),
        _ => None,
    }
}

/// The difference of two optional decimals.
pub open spec fn opt_minus(a: Option<Decimal>, b: Option<Decimal>) -> Option<Decimal> {
    match (a, b) {
        (Some(x), Some(y)) => x.minus(y),
        _ => None,
    }
}

/// The product of two optional decimals.
pub open spec fn opt_times(a: Option<Decimal>, b: Option<Decimal>) -> Option<Decimal> {
    match (a, b) {
        (Some(x), Some(y)) => x.times(y),
        _ => None,
    }
}

/// The quotient of two optional decimals.
pub open spec fn opt_over(a: Option<Decimal>, b: Option<Decimal>) -> Option<Decimal> {
    match (a, b) {
        (Some(x), Some(y)) => x.over(y),
        _ => None,
    }
}

/// An optional decimal rounded to `dp` places.
pub open spec fn opt_rounded(a: Option<Decimal>, dp: int) -> Option<Decimal> {
    match a {
        Some(x) => Some(x.rounded(dp)),
        None => None,
    }
}

/// An optional decimal cut off after `dp` places.
pub open spec fn opt_truncated(a: Option<Decimal>, dp: int) -> Option<Decimal> {
    match a {
        Some(x) => Some(x.truncated(dp)),
        None => None,
    }
}

/// Zero, with no decimal places.
pub open spec fn zero() -> Decimal {
    dec(0, 0)
}

/// One, with no decimal places.
pub open spec fn one() -> Decimal {
    dec(1, 0)
}

impl Decimal {
    pub closed spec fn mantissa(self) -> int {
        self.mantissa as int
    }

    pub closed spec fn scale(self) -> int {
        self.scale as int
    }

    /// The number, counted in units of 10^-28.
    pub open spec fn value(self) -> int {
        parts_value(self.mantissa(), self.scale())
    }

    /// The mantissa is below 2^96 in size and the scale is at most 28.
    #[verifier::type_invariant]
    pub open spec fn valid(self) -> bool {
        valid_parts(self.mantissa(), self.scale())
    }

    /// The sum, where it stays in range.
    #[verifier::opaque]
    pub open spec fn plus(self, o: Decimal) -> Option<Decimal> {
        let r = sum_parts(self.mantissa(), self.scale(), o.mantissa(), o.scale());
        as_claimed(r, exact_if_held(r, self.value() + o.value()))
    }

    /// The difference, where it stays in range.
    #[verifier::opaque]
    pub open spec fn minus(self, o: Decimal) -> Option<Decimal> {
        let r = difference_parts(self.mantissa(), self.scale(), o.mantissa(), o.scale());
        as_claimed(r, exact_if_held(r, self.value() - o.value()))
    }

    /// The product, where it stays in range.
    #[verifier::opaque]
    pub open spec fn times(self, o: Decimal) -> Option<Decimal> {
        let r = product_parts(self.mantissa(), self.scale(), o.mantissa(), o.scale());
        as_claimed(
            r,
            signed_as(r, self.mantissa() * o.mantissa()) && product_claims(r, self.value() * o.value()),
        )
    }

    /// The quotient, where there is one.
    #[verifier::opaque]
    pub open spec fn over(self, o: Decimal) -> Option<Decimal> {
        let r = quotient_parts(self.mantissa(), self.scale(), o.mantissa(), o.scale());
        as_claimed(
            r,
            signed_as(r, self.mantissa() * o.mantissa()) && quotient_claims(r, self.value(), o.value()),
        )
    }

    /// The remainder, where there is one.
    pub open spec fn modulo(self, o: Decimal) -> Option<Decimal> {
        from_parts(remainder_parts(self.mantissa(), self.scale(), o.mantissa(), o.scale()))
    }

    /// The greatest whole number that is not above.
    pub open spec fn floored(self) -> Decimal {
        dec(self.mantissa() / pow10(self.scale() as nat), 0)
    }

    /// The least whole number that is not below.
    pub open spec fn ceiled(self) -> Decimal {
        dec(-(-self.mantissa() / pow10(self.scale() as nat)), 0)
    }

    /// Rounded to at most `dp` places, ties to the even digit.
    pub open spec fn rounded(self, dp: int) -> Decimal {
        if self.scale() <= dp {
            self
        } else {
            dec(half_even(self.mantissa(), pow10((self.scale() - dp) as nat)), dp)
        }
    }

    /// The same number without trailing zeros.
    pub open spec fn normal(self) -> Decimal {
        let p = without_zeros(self.mantissa(), self.scale());
        dec(p.0, p.1)
    }

    /// Cut off after `dp` places.
    pub open spec fn truncated(self, dp: int) -> Decimal {
        if self.scale() <= dp {
            self
        } else {
            dec(toward_zero(self.mantissa(), pow10((self.scale() - dp) as nat)), dp)
        }
    }

    /// Without its sign.
    pub open spec fn magnitude(self) -> Decimal {
        dec(abs_int(self.mantissa()), self.scale())
    }

    /// The other sign.
    pub open spec fn negated(self) -> Decimal {
        dec(-self.mantissa(), self.scale())
    }

    /// The smaller of the two; `self` where they are equal.
    pub open spec fn lesser(self, o: Decimal) -> Decimal {
        if o.value() < self.value() {
            o
        } else {
            self
        }
    }

    /// The larger of the two; `self` where they are equal.
    pub open spec fn greater(self, o: Decimal) -> Decimal {
        if self.value() < o.value() {
            o
        } else {
            self
        }
    }

    /// The last multiple of a positive `step` that is not above a positive number. A number that
    /// is a multiple stays as it is, and so does one that is not positive or has no step to go by;
    /// there is none where a decimal cannot hold it with the places of the step.
    pub open spec fn stepped(self, step: Decimal) -> Option<Decimal> {
        if self.value() <= 0 || step.value() <= 0 || self.value() % step.value() == 0 {
            Some(self)
        } else {
            let mantissa = (self.value() / step.value()) * step.mantissa();
            if mantissa <= MAX_MANTISSA {
                Some(dec(mantissa, step.scale()))
            } else {
                None
            }
        }
    }

    /// The number a text stands for, if any.
    pub open spec fn parsed(text: Seq<char>) -> Option<Decimal> {
        match Decimal::parsed_or_fault(text) {
            Ok(d) => Some(d),
            Err(_) => None,
        }
    }

    /// The number a text stands for, or what is said of a text that is none.
    pub open spec fn parsed_or_fault(text: Seq<char>) -> Result<Decimal, Seq<char>> {
        match parsed_parts(text) {
            Ok(p) => Ok(dec(p.0 as int, p.1 as int)),
            Err(m) => Err(m),
        }
    }

    /// The decimal that a text writes, plain or with an exponent, if it writes one.
    pub open spec fn written(text: Seq<char>) -> Option<Decimal> {
        match Decimal::parsed(text) {
            Some(d) => Some(d),
            None => from_parts(scientific_parts(text)),
        }
    }

    /// The number as text.
    pub open spec fn text(self) -> Seq<char> {
        parts_text(self.mantissa(), self.scale())
    }

    /// The decimal `num` / 10^`scale`.
    pub fn new(num: i64, scale: u32) -> (r: Decimal)
        requires
            scale <= MAX_SCALE,
        ensures
            r == dec(num as int, scale as int),
            r.mantissa() == num,
            r.scale() == scale,
    {
        Decimal { mantissa: num as i128, scale }
    }

    pub fn zero() -> (r: Decimal)
        ensures
            r == zero(),
            r.value() == 0,
    {
        Decimal { mantissa: 0, scale: 0 }
    }

    pub fn one() -> (r: Decimal)
        ensures
            r == one(),
            r.value() == unit(),
    {
        Decimal { mantissa: 1, scale: 0 }
    }

    /// A count as a decimal.
    pub fn from_count(n: usize) -> (r: Decimal)
        ensures
            r == dec(n as int, 0),
            r.mantissa() == n,
            r.scale() == 0,
    {
        Decimal { mantissa: n as i128, scale: 0 }
    }

    /// The decimal of a mantissa and a scale, if they are in range.
    pub fn from_i128_with_scale(mantissa: i128, scale: u32) -> (r: Option<Decimal>)
        ensures
            r is Some <==> valid_parts(mantissa as int, scale as int),
            r is Some ==> r->0 == dec(mantissa as int, scale as int),
    {
        if -MAX_MANTISSA <= mantissa && mantissa <= MAX_MANTISSA && scale <= MAX_SCALE {
            Some(Decimal { mantissa, scale })
        } else {
            None
        }
    }

    pub fn mantissa_part(self) -> (r: i128)
        ensures
            r == self.mantissa(),
    {
        self.mantissa
    }

    pub fn scale_part(self) -> (r: u32)
        ensures
            r == self.scale(),
    {
        self.scale
    }

    fn from_pair(p: Option<(i128, u32)>) -> (r: Option<Decimal>)
        requires
            valid_option(p),
        ensures
            r == from_parts(p),
            r is Some ==> r->0.value() == option_value(p),
    {
        match p {
            Some((mantissa, scale)) => Some(Decimal { mantissa, scale }),
            None => None,
        }
    }

    /// `self + o`, or `None` out of range. Exact wherever a decimal can hold the sum.
    pub fn checked_add(self, o: Decimal) -> (r: Option<Decimal>)
        ensures
            r == self.plus(o),
            representable(self.value() + o.value()) ==> r is Some && r->0.value() == self.value() + o.value(),
            in_range(self.value() + o.value()) ==> r is Some,
    {
        proof {
            reveal(Decimal::plus);
            use_type_invariant(self);
            use_type_invariant(o);
        }
        Self::from_pair(add_parts(self.mantissa, self.scale, o.mantissa, o.scale))
    }

    /// `self - o`, or `None` out of range. Exact wherever a decimal can hold the difference.
    pub fn checked_sub(self, o: Decimal) -> (r: Option<Decimal>)
        ensures
            r == self.minus(o),
            representable(self.value() - o.value()) ==> r is Some && r->0.value() == self.value() - o.value(),
            in_range(self.value() - o.value()) ==> r is Some,
    {
        proof {
            reveal(Decimal::minus);
            use_type_invariant(self);
            use_type_invariant(o);
        }
        Self::from_pair(sub_parts(self.mantissa, self.scale, o.mantissa, o.scale))
    }

    /// `self * o`, or `None` out of range. Exact wherever a decimal can hold the product.
    pub fn checked_mul(self, o: Decimal) -> (r: Option<Decimal>)
        ensures
            r == self.times(o),
            r is Some && self.value() >= 0 && o.value() >= 0 ==> r->0.value() >= 0,
            r is Some && self.value() == 0 ==> r->0.value() == 0,
            ({
                let exact = self.value() * o.value();
                &&& exact % unit() == 0 && representable(exact / unit()) ==> r is Some && r->0.value() == exact
                    / unit()
                &&& abs_int(exact) <= MAX_MANTISSA * unit() * unit() ==> r is Some
            }),
    {
        proof {
            reveal(Decimal::times);
            use_type_invariant(self);
            use_type_invariant(o);
            lemma_value_sign(self.mantissa(), self.scale());
            lemma_value_sign(o.mantissa(), o.scale());
            let a = self.mantissa();
            let b = o.mantissa();
            assert((a >= 0 && b >= 0 ==> a * b >= 0) && (a == 0 ==> a * b == 0)) by (nonlinear_arith);
        }
        Self::from_pair(mul_parts(self.mantissa, self.scale, o.mantissa, o.scale))
    }

    /// `self / o`, or `None` for a zero divisor or out of range. Exact wherever a decimal can hold
    /// the quotient.
    pub fn checked_div(self, o: Decimal) -> (r: Option<Decimal>)
        ensures
            r == self.over(o),
            o.value() == 0 ==> r is None,
            r is Some && self.value() >= 0 && o.value() >= 0 ==> r->0.value() >= 0,
            ({
                let a = self.value();
                let b = o.value();
                &&& b != 0 && (a * unit()) % b == 0 && representable((a * unit()) / b) ==> r is Some && r->0.value()
                    == (a * unit()) / b
                &&& b != 0 && abs_int(a) <= abs_int(b) * MAX_MANTISSA ==> r is Some
                &&& r is Some ==> abs_int(r->0.value() * b - a * unit()) <= max_int(abs_int(a), abs_int(b))
            }),
    {
        proof {
            reveal(Decimal::over);
            use_type_invariant(self);
            use_type_invariant(o);
            lemma_value_sign(self.mantissa(), self.scale());
            lemma_value_sign(o.mantissa(), o.scale());
            let a = self.mantissa();
            let b = o.mantissa();
            assert(a >= 0 && b >= 0 ==> a * b >= 0) by (nonlinear_arith);
        }
        Self::from_pair(div_parts(self.mantissa, self.scale, o.mantissa, o.scale))
    }

    /// `self % o`, or `None` for a zero divisor or out of range.
    pub fn checked_rem(self, o: Decimal) -> (r: Option<Decimal>)
        ensures
            r == self.modulo(o),
            o.value() == 0 ==> r is None,
            self.value() >= 0 && o.value() > 0 && aligned(
                self.mantissa(),
                self.scale(),
                o.mantissa(),
                o.scale(),
            ) ==> r is Some && r->0.value() == self.value() % o.value(),
    {
        proof {
            use_type_invariant(self);
            use_type_invariant(o);
            lemma_value_sign(self.mantissa(), self.scale());
            lemma_value_sign(o.mantissa(), o.scale());
        }
        Self::from_pair(rem_parts(self.mantissa, self.scale, o.mantissa, o.scale))
    }

    /// Whether `self` is the smaller number.
    pub fn lt(self, o: Decimal) -> (r: bool)
        ensures
            r == (self.value() < o.value()),
    {
        proof {
            use_type_invariant(self);
            use_type_invariant(o);
        }
        less_parts(self.mantissa, self.scale, o.mantissa, o.scale)
    }

    /// Whether `self` is not the larger number.
    pub fn le(self, o: Decimal) -> (r: bool)
        ensures
            r == (self.value() <= o.value()),
    {
        !o.lt(self)
    }

    /// Whether the two are one number, whatever their scales.
    pub fn same(self, o: Decimal) -> (r: bool)
        ensures
            r == (self.value() == o.value()),
    {
        !self.lt(o) && !o.lt(self)
    }

    pub fn is_zero(self) -> (r: bool)
        ensures
            r == (self.value() == 0),
            r == (self.mantissa() == 0),
    {
        proof {
            use_type_invariant(self);
            lemma_value_sign(self.mantissa(), self.scale());
        }
        self.mantissa == 0
    }

    pub fn is_positive(self) -> (r: bool)
        ensures
            r == (self.value() > 0),
            r == (self.mantissa() > 0),
    {
        proof {
            use_type_invariant(self);
            lemma_value_sign(self.mantissa(), self.scale());
        }
        self.mantissa > 0
    }

    pub fn is_negative(self) -> (r: bool)
        ensures
            r == (self.value() < 0),
            r == (self.mantissa() < 0),
    {
        proof {
            use_type_invariant(self);
            lemma_value_sign(self.mantissa(), self.scale());
        }
        self.mantissa < 0
    }

    pub fn min(self, o: Decimal) -> (r: Decimal)
        ensures
            r == self.lesser(o),
    {
        if o.lt(self) {
            o
        } else {
            self
        }
    }

    pub fn max(self, o: Decimal) -> (r: Decimal)
        ensures
            r == self.greater(o),
    {
        if self.lt(o) {
            o
        } else {
            self
        }
    }

    /// Rounded down to a multiple of `step`; `None` where no decimal can hold that with the places
    /// of the step.
    pub fn floor_to(self, step: Decimal) -> (r: Option<Decimal>)
        ensures
            r == self.stepped(step),
    {
        proof {
            use_type_invariant(self);
            use_type_invariant(step);
            lemma_value_sign(self.mantissa(), self.scale());
            lemma_value_sign(step.mantissa(), step.scale());
        }
        if self.mantissa <= 0 || step.mantissa <= 0 {
            return Some(self);
        }
        if self.scale <= step.scale {
            self.floor_to_finer(step)
        } else {
            self.floor_to_coarser(step)
        }
    }

    /// The same for a step that has no fewer places.
    fn floor_to_finer(self, step: Decimal) -> (r: Option<Decimal>)
        requires
            self.valid(),
            step.valid(),
            self.mantissa() > 0,
            step.mantissa() > 0,
            self.scale() <= step.scale(),
        ensures
            r == self.stepped(step),
    {
        let a = self.mantissa;
        let b = step.mantissa;
        let k: u32 = step.scale - self.scale;
        // The number at the places of the step, as far as it matters, and its remainder.
        let mut x: i128 = a;
        let mut over = false;
        let mut rem: i128 = a % b;
        let mut j: u32 = 0;
        assert(a * pow10(0) == a);
        while j < k
            invariant
                0 < a <= MAX_MANTISSA,
                0 < b <= MAX_MANTISSA,
                j <= k,
                rem == (a * pow10(j as nat)) % (b as int),
                0 <= rem < b,
                !over ==> x == a * pow10(j as nat) && 0 < x <= 2 * MAX_MANTISSA,
                over ==> a * pow10(j as nat) > 2 * MAX_MANTISSA,
            decreases k - j,
        {
            let ghost whole = a * pow10(j as nat);
            proof {
                lemma_pow10_add(j as nat, 1);
                assert(pow10(1) == 10) by {
                    reveal_with_fuel(pow10, 2);
                }
                assert(a * pow10((j + 1) as nat) == 10 * whole) by (nonlinear_arith)
                    requires
                        pow10((j + 1) as nat) == pow10(j as nat) * 10,
                        whole == a * pow10(j as nat),
                ;
                vstd::arithmetic::div_mod::lemma_mul_mod_noop_right(10, whole, b as int);
            }
            rem = (rem * 10) % b;
            if !over {
                x = x * 10;
                over = x > 2 * MAX_MANTISSA;
            }
            j += 1;
        }
        let ghost whole = a * pow10(k as nat);
        let ghost g = pow10((28 - step.scale) as nat);
        proof {
            lemma_pow10_positive((28 - step.scale) as nat);
            lemma_pow10_positive(k as nat);
            lemma_pow10_add(k as nat, (28 - step.scale) as nat);
            assert(self.value() == whole * g) by (nonlinear_arith)
                requires
                    self.value() == a * (pow10(k as nat) * g),
                    whole == a * pow10(k as nat),
            ;
            assert(whole > 0) by (nonlinear_arith)
                requires
                    whole == a * pow10(k as nat),
                    a > 0,
                    pow10(k as nat) > 0,
            ;
            lemma_common_factor(whole, b as int, g);
            lemma_value_sign(self.mantissa(), self.scale());
            lemma_value_sign(step.mantissa(), step.scale());
            vstd::arithmetic::div_mod::lemma_fundamental_div_mod(whole, b as int);
            assert((whole / (b as int)) * b == whole - rem) by (nonlinear_arith)
                requires
                    whole == b * (whole / (b as int)) + rem,
            ;
        }
        if rem == 0 {
            return Some(self);
        }
        if over {
            return None;
        }
        let mantissa: i128 = x - rem;
        if mantissa <= MAX_MANTISSA {
            Some(Decimal { mantissa, scale: step.scale })
        } else {
            None
        }
    }

    /// The same for a step that has fewer places.
    fn floor_to_coarser(self, step: Decimal) -> (r: Option<Decimal>)
        requires
            self.valid(),
            step.valid(),
            self.mantissa() > 0,
            step.mantissa() > 0,
            self.scale() > step.scale(),
        ensures
            r == self.stepped(step),
    {
        let a = self.mantissa;
        let b = step.mantissa;
        let k: u32 = self.scale - step.scale;
        // The step at the places of the number, as long as it is not above the number.
        let mut x: i128 = b;
        let mut over = b > a;
        let mut j: u32 = 0;
        assert(b * pow10(0) == b);
        while j < k
            invariant
                0 < a <= MAX_MANTISSA,
                0 < b,
                j <= k,
                !over ==> x == b * pow10(j as nat) && 0 < x <= a,
                over ==> b * pow10(j as nat) > a,
            decreases k - j,
        {
            proof {
                lemma_pow10_add(j as nat, 1);
                assert(pow10(1) == 10) by {
                    reveal_with_fuel(pow10, 2);
                }
                assert(b * pow10((j + 1) as nat) == 10 * (b * pow10(j as nat))) by (nonlinear_arith)
                    requires
                        pow10((j + 1) as nat) == pow10(j as nat) * 10,
                ;
            }
            if !over {
                x = x * 10;
                over = x > a;
            }
            j += 1;
        }
        let ghost wide = b * pow10(k as nat);
        let ghost g = pow10((28 - self.scale) as nat);
        proof {
            lemma_pow10_positive((28 - self.scale) as nat);
            lemma_pow10_positive(k as nat);
            lemma_pow10_add(k as nat, (28 - self.scale) as nat);
            assert(step.value() == wide * g) by (nonlinear_arith)
                requires
                    step.value() == b * (pow10(k as nat) * g),
                    wide == b * pow10(k as nat),
            ;
            assert(wide >= b) by (nonlinear_arith)
                requires
                    wide == b * pow10(k as nat),
                    b > 0,
                    pow10(k as nat) > 0,
            ;
            lemma_common_factor(a as int, wide, g);
            lemma_value_sign(self.mantissa(), self.scale());
            lemma_value_sign(step.mantissa(), step.scale());
            assert((a as int) % wide == 0 <==> ((a as int) % wide) * g == 0) by (nonlinear_arith)
                requires
                    g > 0,
            ;
        }
        if over {
            proof {
                vstd::arithmetic::div_mod::lemma_fundamental_div_mod_converse(a as int, wide, 0, a as int);
            }
            assert(0 * step.mantissa() == 0);
            return Some(Decimal { mantissa: 0, scale: step.scale });
        }
        if a % x == 0 {
            return Some(self);
        }
        let n: i128 = a / x;
        proof {
            vstd::arithmetic::div_mod::lemma_fundamental_div_mod(a as int, wide);
            assert(0 <= n * b <= a) by (nonlinear_arith)
                requires
                    a == wide * n + (a as int) % wide,
                    (a as int) % wide >= 0,
                    0 < b <= wide,
                    n >= 0,
            ;
        }
        Some(Decimal { mantissa: n * b, scale: step.scale })
    }

    pub fn abs(self) -> (r: Decimal)
        ensures
            r == self.magnitude(),
    {
        proof {
            use_type_invariant(self);
        }
        if self.mantissa < 0 {
            Decimal { mantissa: -self.mantissa, scale: self.scale }
        } else {
            self
        }
    }

    pub fn neg(self) -> (r: Decimal)
        ensures
            r == self.negated(),
    {
        proof {
            use_type_invariant(self);
        }
        Decimal { mantissa: -self.mantissa, scale: self.scale }
    }

    pub fn floor(self) -> (r: Decimal)
        ensures
            r == self.floored(),
    {
        proof {
            use_type_invariant(self);
        }
        let (mantissa, scale) = floor_parts(self.mantissa, self.scale);
        Decimal { mantissa, scale }
    }

    pub fn ceil(self) -> (r: Decimal)
        ensures
            r == self.ceiled(),
    {
        proof {
            use_type_invariant(self);
        }
        let (mantissa, scale) = ceil_parts(self.mantissa, self.scale);
        Decimal { mantissa, scale }
    }

    pub fn round_dp(self, dp: u32) -> (r: Decimal)
        ensures
            r == self.rounded(dp as int),
    {
        proof {
            use_type_invariant(self);
        }
        let (mantissa, scale) = round_parts(self.mantissa, self.scale, dp);
        Decimal { mantissa, scale }
    }

    pub fn trunc_dp(self, dp: u32) -> (r: Decimal)
        ensures
            r == self.truncated(dp as int),
    {
        proof {
            use_type_invariant(self);
        }
        let (mantissa, scale) = truncate_parts(self.mantissa, self.scale, dp);
        Decimal { mantissa, scale }
    }

    /// The same number without trailing zeros.
    pub fn normalize(self) -> (r: Decimal)
        ensures
            r == self.normal(),
            r.value() == self.value(),
            r.scale() == 0 || r.mantissa() % 10 != 0,
    {
        proof {
            use_type_invariant(self);
        }
        let (mantissa, scale) = normal_parts(self.mantissa, self.scale);
        proof {
            lemma_pow10_add((self.scale - scale) as nat, (28 - self.scale) as nat);
            let k = pow10((self.scale - scale) as nat);
            let l = pow10((28 - self.scale) as nat);
            assert(mantissa * k * l == mantissa * (k * l)) by (nonlinear_arith);
            lemma_without_zeros(self.mantissa as int, self.scale as int, mantissa as int, scale as int);
        }
        Decimal { mantissa, scale }
    }

    /// The number a text stands for.
    pub fn parse(text: &str) -> (r: Option<Decimal>)
        ensures
            r == Decimal::parsed(text@),
    {
        match Self::parse_or_fault(text) {
            Ok(d) => Some(d),
            Err(_) => None,
        }
    }

    /// The number a text stands for, or what is wrong with the text.
    pub fn parse_or_fault(text: &str) -> (r: Result<Decimal, String>)
        ensures
            match Decimal::parsed_or_fault(text@) {
                Ok(d) => r == Ok::<Decimal, String>(d),
                Err(m) => r matches Err(e) && e@ == m,
            },
    {
        match parse_parts(text) {
            Ok((mantissa, scale)) => Ok(Decimal { mantissa, scale }),
            Err(e) => Err(e),
        }
    }

    /// Reads a decimal, plain or with an exponent.
    pub fn read(text: &str) -> (r: Option<Decimal>)
        ensures
            r == Decimal::written(text@),
    {
        match Self::parse(text) {
            Some(d) => Some(d),
            None => Self::from_pair(scientific(text)),
        }
    }

    /// The number as text, every digit of its scale written.
    pub fn to_text(self) -> (r: String)
        ensures
            r@ == self.text(),
    {
        proof {
            use_type_invariant(self);
        }
        print_parts(self.mantissa, self.scale)
    }
}

impl PartialEq for Decimal {
    fn eq(&self, other: &Decimal) -> (r: bool) {
        self.same(*other)
    }
}

impl vstd::std_specs::cmp::PartialEqSpecImpl for Decimal {
    open spec fn obeys_eq_spec() -> bool {
        true
    }

    open spec fn eq_spec(&self, other: &Decimal) -> bool {
        self.value() == other.value()
    }
}

impl Default for Decimal {
    fn default() -> (r: Decimal)
        ensures
            r == zero(),
    {
        Decimal::zero()
    }
}

/// A common factor does not matter to a quotient, and is one of the remainder.
proof fn lemma_common_factor(x: int, y: int, g: int)
    requires
        x >= 0,
        y > 0,
        g > 0,
    ensures
        (x * g) / (y * g) == x / y,
        (x * g) % (y * g) == (x % y) * g,
        (x % y) * g == 0 <==> x % y == 0,
{
    let a = x / y;
    let b = x % y;
    vstd::arithmetic::div_mod::lemma_fundamental_div_mod(x, y);
    assert(x * g == (y * g) * a + b * g && 0 <= b * g < y * g) by (nonlinear_arith)
        requires
            x == y * a + b,
            0 <= b < y,
            g > 0,
    ;
    vstd::arithmetic::div_mod::lemma_fundamental_div_mod_converse(x * g, y * g, a, b * g);
    assert(b * g == 0 <==> b == 0) by (nonlinear_arith)
        requires
            g > 0,
    ;
}

/// What is rounded down to a multiple: it is not above the number, less than a step below it, and a
/// multiple of the step.
pub proof fn lemma_stepped(x: Decimal, step: Decimal)
    requires
        step.valid(),
        x.value() > 0,
        step.value() > 0,
        x.stepped(step) is Some,
    ensures
        x.valid() ==> x.stepped(step)->0.valid(),
        x.stepped(step)->0.value() == (x.value() / step.value()) * step.value(),
        0 <= x.stepped(step)->0.value() <= x.value() < x.stepped(step)->0.value() + step.value(),
        x.stepped(step)->0.value() % step.value() == 0,
{
    let v = x.value();
    let t = step.value();
    let n = v / t;
    vstd::arithmetic::div_mod::lemma_fundamental_div_mod(v, t);
    assert(n >= 0 && n * t == t * n) by (nonlinear_arith)
        requires
            v > 0,
            t > 0,
            n == v / t,
    ;
    vstd::arithmetic::div_mod::lemma_fundamental_div_mod_converse(n * t, t, n, 0);
    assert(n * t >= 0) by (nonlinear_arith)
        requires
            n >= 0,
            t > 0,
    ;
    if v % t != 0 {
        lemma_value_sign(step.mantissa(), step.scale());
        let m = n * step.mantissa();
        let p = pow10((28 - step.scale()) as nat);
        assert(m >= 0) by (nonlinear_arith)
            requires
                m == n * step.mantissa(),
                n >= 0,
                step.mantissa() > 0,
        ;
        lemma_dec_parts(m, step.scale());
        assert(m * p == n * t) by (nonlinear_arith)
            requires
                m == n * step.mantissa(),
                t == step.mantissa() * p,
        ;
    }
}

pub proof fn lemma_pow10_positive(n: nat)
    ensures
        pow10(n) > 0,
    decreases n,
{
    if n > 0 {
        lemma_pow10_positive((n - 1) as nat);
    }
}

pub proof fn lemma_pow10_add(a: nat, b: nat)
    ensures
        pow10(a + b) == pow10(a) * pow10(b),
    decreases a,
{
    if a > 0 {
        lemma_pow10_add((a - 1) as nat, b);
        let x = pow10((a - 1) as nat);
        let y = pow10(b);
        assert(10 * (x * y) == (10 * x) * y) by (nonlinear_arith);
    }
}

/// A sum and a difference are exact wherever a decimal can hold them.
pub proof fn lemma_sums(a: Decimal, b: Decimal)
    ensures
        a.plus(b) matches Some(x) ==> x.valid() && (representable(a.value() + b.value()) ==> x.value() == a.value()
            + b.value()),
        a.minus(b) matches Some(x) ==> x.valid() && (representable(a.value() - b.value()) ==> x.value() == a.value()
            - b.value()),
{
    reveal(Decimal::plus);
    reveal(Decimal::minus);
}

/// A product of two numbers that are not negative is not negative, and one with zero is zero; it is
/// exact wherever a decimal can hold it.
pub proof fn lemma_product(a: Decimal, b: Decimal)
    ensures
        a.times(b) matches Some(x) ==> {
            &&& x.valid()
            &&& a.value() >= 0 && b.value() >= 0 ==> x.value() >= 0
            &&& a.value() == 0 || b.value() == 0 ==> x.value() == 0
            &&& (a.value() * b.value()) % unit() == 0 && representable(a.value() * b.value() / unit()) ==> x.value()
                == a.value() * b.value() / unit()
        },
{
    reveal(Decimal::times);
    lemma_value_sign(a.mantissa(), a.scale());
    lemma_value_sign(b.mantissa(), b.scale());
    let m = a.mantissa();
    let n = b.mantissa();
    assert((m >= 0 && n >= 0 ==> m * n >= 0) && (m == 0 || n == 0 ==> m * n == 0)) by (nonlinear_arith);
}

/// A quotient of a number that is not negative by a positive one is not negative, and off by no more
/// than 10^-28 of the larger of one and the quotient.
pub proof fn lemma_quotient(a: Decimal, b: Decimal)
    requires
        b.value() > 0,
    ensures
        a.over(b) matches Some(x) ==> {
            &&& x.valid()
            &&& a.value() >= 0 ==> x.value() >= 0
            &&& abs_int(x.value() * b.value() - a.value() * unit()) <= max_int(abs_int(a.value()), b.value())
            &&& (a.value() * unit()) % b.value() == 0 && representable(a.value() * unit() / b.value()) ==> x.value()
                == a.value() * unit() / b.value()
        },
{
    reveal(Decimal::over);
    lemma_value_sign(a.mantissa(), a.scale());
    lemma_value_sign(b.mantissa(), b.scale());
    let m = a.mantissa();
    let n = b.mantissa();
    assert(m >= 0 && n >= 0 ==> m * n >= 0) by (nonlinear_arith);
}

/// Cutting off places never makes a number greater, nor one that is not negative negative.
pub proof fn lemma_truncated(x: Decimal, dp: int)
    requires
        x.valid(),
        x.value() >= 0,
        dp >= 0,
    ensures
        0 <= x.truncated(dp).value() <= x.value(),
{
    lemma_value_sign(x.mantissa(), x.scale());
    if x.scale() > dp {
        let m = x.mantissa();
        let p = pow10((x.scale() - dp) as nat);
        let rest = pow10((28 - x.scale()) as nat);
        lemma_pow10_positive((x.scale() - dp) as nat);
        lemma_pow10_positive((28 - x.scale()) as nat);
        lemma_pow10_add((x.scale() - dp) as nat, (28 - x.scale()) as nat);
        assert(0 <= m / p <= m && m / p * p <= m) by (nonlinear_arith)
            requires
                m >= 0,
                p >= 1,
        ;
        lemma_dec_parts(m / p, dp);
        let q = m / p;
        assert(0 <= q * (p * rest) <= m * rest) by (nonlinear_arith)
            requires
                0 <= q,
                q * p <= m,
                p >= 1,
                rest >= 1,
        ;
    }
}

/// One in units of 10^-28.
pub proof fn lemma_unit()
    ensures
        unit() == 10000000000000000000000000000,
{
    reveal_with_fuel(pow10, 29);
}

/// A number has the sign of its mantissa.
pub proof fn lemma_value_sign(m: int, s: int)
    ensures
        parts_value(m, s) == 0 <==> m == 0,
        parts_value(m, s) > 0 <==> m > 0,
        parts_value(m, s) < 0 <==> m < 0,
{
    let p = pow10((28 - s) as nat);
    lemma_pow10_positive((28 - s) as nat);
    assert((m * p == 0 <==> m == 0) && (m * p > 0 <==> m > 0) && (m * p < 0 <==> m < 0)) by (nonlinear_arith)
        requires
            p > 0,
    ;
}

/// What a number becomes when it is rounded to `dp` places: a number of so many places, off by no
/// more than half of the last one.
pub proof fn lemma_rounded(x: Decimal, dp: int)
    requires
        x.valid(),
        0 <= dp <= 28,
    ensures
        x.rounded(dp).valid(),
        2 * abs_int(x.rounded(dp).value() - x.value()) <= pow10((28 - dp) as nat),
        x.rounded(dp).value() % pow10((28 - dp) as nat) == 0,
        x.scale() <= dp ==> x.rounded(dp) == x,
{
    let g = pow10((28 - dp) as nat);
    lemma_pow10_positive((28 - dp) as nat);
    if x.scale() > dp {
        let m = x.mantissa();
        let p = pow10((x.scale() - dp) as nat);
        let u = pow10((28 - x.scale()) as nat);
        lemma_pow10_positive((x.scale() - dp) as nat);
        lemma_pow10_positive((28 - x.scale()) as nat);
        lemma_pow10_add((x.scale() - dp) as nat, (28 - x.scale()) as nat);
        let a = abs_int(m);
        let n = half_even(a, p);
        vstd::arithmetic::div_mod::lemma_fundamental_div_mod(a, p);
        let q = a / p;
        let r = a % p;
        assert(0 <= q && 0 <= r < p && a == p * q + r) by (nonlinear_arith)
            requires
                a >= 0,
                p > 0,
                a == p * (a / p) + a % p,
                q == a / p,
                r == a % p,
        ;
        assert(n == q || n == q + 1);
        assert(q <= a && (r > 0 ==> q + 1 <= a)) by (nonlinear_arith)
            requires
                a == p * q + r,
                p >= 1,
                q >= 0,
                r >= 0,
        ;
        assert(-p <= 2 * (n * p - a) <= p) by (nonlinear_arith)
            requires
                a == p * q + r,
                0 <= r < p,
                n == q || n == q + 1,
                n == q ==> 2 * r <= p,
                n == q + 1 ==> 2 * r >= p,
        ;
        let k = half_even(m, p);
        assert(k == if m < 0 { -n } else { n });
        assert(-p <= 2 * (k * p - m) <= p) by (nonlinear_arith)
            requires
                -p <= 2 * (n * p - a) <= p,
                m < 0 ==> k == -n && a == -m,
                m >= 0 ==> k == n && a == m,
        ;
        assert(valid_parts(k, dp));
        lemma_dec_parts(k, dp);
        assert(-(p * u) <= 2 * (k * (p * u) - m * u) <= p * u) by (nonlinear_arith)
            requires
                -p <= 2 * (k * p - m) <= p,
                u > 0,
        ;
        vstd::arithmetic::div_mod::lemma_fundamental_div_mod_converse(k * g, g, k, 0);
        assert(g * k == k * g) by (nonlinear_arith);
    } else {
        let w = pow10((dp - x.scale()) as nat);
        lemma_pow10_add((dp - x.scale()) as nat, (28 - dp) as nat);
        let k = x.mantissa() * w;
        assert(x.value() == g * k) by (nonlinear_arith)
            requires
                x.value() == x.mantissa() * (w * g),
                k == x.mantissa() * w,
        ;
        vstd::arithmetic::div_mod::lemma_fundamental_div_mod_converse(x.value(), g, k, 0);
    }
}

/// Rounding to `dp` places does not pass a number of at most so many.
pub proof fn lemma_rounded_keeps_sides(x: Decimal, q: Decimal, dp: int)
    requires
        x.valid(),
        q.valid(),
        0 <= dp <= 28,
        q.scale() <= dp,
    ensures
        x.value() <= q.value() ==> x.rounded(dp).value() <= q.value(),
        q.value() <= x.value() ==> q.value() <= x.rounded(dp).value(),
{
    let g = pow10((28 - dp) as nat);
    lemma_pow10_positive((28 - dp) as nat);
    lemma_rounded(x, dp);
    lemma_rounded(q, dp);
    let a = x.rounded(dp).value();
    let b = q.value();
    let i = a / g;
    let j = b / g;
    vstd::arithmetic::div_mod::lemma_fundamental_div_mod(a, g);
    vstd::arithmetic::div_mod::lemma_fundamental_div_mod(b, g);
    assert(a > b ==> a - b >= g) by (nonlinear_arith)
        requires
            a == g * i,
            b == g * j,
            g > 0,
    ;
    assert(a < b ==> b - a >= g) by (nonlinear_arith)
        requires
            a == g * i,
            b == g * j,
            g > 0,
    ;
}

/// Whether a decimal holds the product of two numbers exactly.
pub open spec fn product_held(a: Decimal, b: Decimal) -> bool {
    (a.value() * b.value()) % unit() == 0 && representable(a.value() * b.value() / unit())
}

/// A product that a decimal holds is the product.
pub proof fn lemma_product_held(a: Decimal, b: Decimal)
    requires
        product_held(a, b),
    ensures
        a.times(b) matches Some(x) ==> x.valid() && x.value() * unit() == a.value() * b.value(),
{
    lemma_product(a, b);
    lemma_unit();
    vstd::arithmetic::div_mod::lemma_fundamental_div_mod(a.value() * b.value(), unit());
    let v = a.value() * b.value() / unit();
    assert(v * unit() == unit() * v) by (nonlinear_arith);
}

/// A small whole number times a number: exact unless it leaves the mantissa at every scale.
pub proof fn lemma_times_whole(a: Decimal, n: int)
    requires
        a.valid(),
        valid_parts(n, 0),
        representable(a.value() * n),
    ensures
        a.times(dec(n, 0)) matches Some(x) ==> x.valid() && x.value() == a.value() * n,
        dec(n, 0).times(a) matches Some(x) ==> x.valid() && x.value() == a.value() * n,
{
    lemma_dec_parts(n, 0);
    lemma_unit();
    let b = dec(n, 0);
    let u = unit();
    assert(b.value() == n * u);
    let v = a.value() * n;
    assert(a.value() * b.value() == u * v && b.value() * a.value() == u * v) by (nonlinear_arith)
        requires
            b.value() == n * u,
            v == a.value() * n,
    ;
    vstd::arithmetic::div_mod::lemma_fundamental_div_mod_converse(u * v, u, v, 0);
    lemma_product(a, b);
    lemma_product(b, a);
}

/// A hundred times a number of moderate size is held by a decimal.
pub proof fn lemma_hundredfold(a: Decimal)
    requires
        a.valid(),
        100 * abs_int(a.value()) <= MAX_MANTISSA * unit(),
    ensures
        representable(a.value() * 100),
        a.times(dec(100, 0)) matches Some(x) ==> x.valid() && x.value() == a.value() * 100,
{
    let m = a.mantissa();
    let s = a.scale();
    lemma_unit();
    if s >= 2 {
        assert(pow10((30 - s) as nat) == 10 * pow10((29 - s) as nat));
        assert(pow10((29 - s) as nat) == 10 * pow10((28 - s) as nat));
        let p = pow10((28 - s) as nat);
        assert(m * (10 * (10 * p)) == (m * p) * 100) by (nonlinear_arith);
        assert(valid_parts(m, s - 2) && a.value() * 100 == parts_value(m, s - 2));
    } else {
        let p = pow10((28 - s) as nat);
        lemma_pow10_positive((28 - s) as nat);
        let u = unit();
        let k = m * 100;
        if s == 0 {
            assert(p == u);
            assert(-MAX_MANTISSA <= k <= MAX_MANTISSA) by (nonlinear_arith)
                requires
                    k == m * 100,
                    -(MAX_MANTISSA * u) <= 100 * (m * u) <= MAX_MANTISSA * u,
                    u > 0,
            ;
            assert(k * p == (m * p) * 100) by (nonlinear_arith)
                requires
                    k == m * 100,
            ;
            assert(valid_parts(k, 0) && a.value() * 100 == parts_value(k, 0));
        } else {
            assert(unit() == 10 * pow10(27));
            let j = m * 10;
            assert(-MAX_MANTISSA <= j <= MAX_MANTISSA) by (nonlinear_arith)
                requires
                    j == m * 10,
                    -(MAX_MANTISSA * u) <= 100 * (m * p) <= MAX_MANTISSA * u,
                    u == 10 * p,
                    p > 0,
            ;
            assert(j * u == (m * p) * 100) by (nonlinear_arith)
                requires
                    j == m * 10,
                    u == 10 * p,
            ;
            assert(valid_parts(j, 0) && a.value() * 100 == parts_value(j, 0));
        }
    }
    lemma_times_whole(a, 100);
}

/// A quotient that a decimal holds is the quotient.
pub proof fn lemma_exact_quotient(a: Decimal, b: Decimal, n: int)
    requires
        b.value() != 0,
        a.value() * unit() == b.value() * n,
        representable(n),
    ensures
        a.over(b) matches Some(x) ==> x.valid() && x.value() == n,
{
    reveal(Decimal::over);
    vstd::arithmetic::div_mod::lemma_fundamental_div_mod(a.value() * unit(), b.value());
    let v = a.value() * unit();
    let d = b.value();
    assert(v % d == 0 && v / d == n) by (nonlinear_arith)
        requires
            v == d * n,
            d != 0,
    ;
}

/// What is left of a number that is not negative when it is cut off after `dp` places.
pub proof fn lemma_truncated_value(x: Decimal, dp: int)
    requires
        x.valid(),
        x.value() >= 0,
        0 <= dp <= 28,
    ensures
        x.truncated(dp).valid(),
        x.truncated(dp).value() == x.value() / pow10((28 - dp) as nat) * pow10((28 - dp) as nat),
{
    let g = pow10((28 - dp) as nat);
    lemma_pow10_positive((28 - dp) as nat);
    lemma_value_sign(x.mantissa(), x.scale());
    let m = x.mantissa();
    if x.scale() > dp {
        let p = pow10((x.scale() - dp) as nat);
        let u = pow10((28 - x.scale()) as nat);
        lemma_pow10_positive((x.scale() - dp) as nat);
        lemma_pow10_positive((28 - x.scale()) as nat);
        lemma_pow10_add((x.scale() - dp) as nat, (28 - x.scale()) as nat);
        lemma_common_factor(m, p, u);
        assert(0 <= m / p <= m) by (nonlinear_arith)
            requires
                m >= 0,
                p >= 1,
        ;
        lemma_dec_parts(m / p, dp);
    } else {
        lemma_rounded(x, dp);
        vstd::arithmetic::div_mod::lemma_fundamental_div_mod(x.value(), g);
        let q = x.value() / g;
        assert(q * g == g * q) by (nonlinear_arith);
    }
}

/// A number without its sign.
pub proof fn lemma_magnitude(x: Decimal)
    requires
        x.valid(),
    ensures
        x.magnitude().value() == abs_int(x.value()),
{
    let m = x.mantissa();
    let p = pow10((28 - x.scale()) as nat);
    lemma_value_sign(m, x.scale());
    lemma_dec_parts(abs_int(m), x.scale());
    assert((-m) * p == -(m * p)) by (nonlinear_arith);
}

} // verus!
