use vstd::prelude::*;

use vstd::arithmetic::div_mod::{lemma_fundamental_div_mod, lemma_mod_multiples_basic};

verus! {

/// The mathematical value of a [`Number`]: the fraction `num / den`.
pub struct Ratio {
    pub num: int,
    pub den: int,
}

/// An exact rational number `num / den` with a positive denominator.
///
/// Arithmetic is exact; an operation whose exact result does not fit the
/// representation (an `i64` numerator over a `u64` denominator) has no result.
#[derive(Clone, Copy, Debug)]
pub struct Number {
    num: i64,
    den: u64,
}

/// The largest number of digits written after the decimal point.
pub const FRACTION_DIGITS: u64 = 16;

pub open spec fn in_range(r: Ratio) -> bool {
    &&& i64::MIN <= r.num <= i64::MAX
    &&& 1 <= r.den <= u64::MAX
}

pub open spec fn ratio_add(a: Ratio, b: Ratio) -> Ratio {
    if a.den == b.den {
        Ratio { num: a.num + b.num, den: a.den }
    } else {
        Ratio { num: a.num * b.den + b.num * a.den, den: a.den * b.den }
    }
}

pub open spec fn ratio_sub(a: Ratio, b: Ratio) -> Ratio {
    if a.den == b.den {
        Ratio { num: a.num - b.num, den: a.den }
    } else {
        Ratio { num: a.num * b.den - b.num * a.den, den: a.den * b.den }
    }
}

pub open spec fn ratio_mul(a: Ratio, b: Ratio) -> Ratio {
    Ratio { num: a.num * b.num, den: a.den * b.den }
}

/// The quotient `a / b`, meaningful where `b.num != 0`.
pub open spec fn ratio_div(a: Ratio, b: Ratio) -> Ratio {
    if b.num >= 0 {
        Ratio { num: a.num * b.den, den: a.den * b.num }
    } else {
        Ratio { num: -(a.num * b.den), den: a.den * (-b.num) }
    }
}

pub open spec fn ratio_neg(a: Ratio) -> Ratio {
    Ratio { num: -a.num, den: a.den }
}

/// `a` and `b` stand for the same rational number.
pub open spec fn ratio_eq(a: Ratio, b: Ratio) -> bool {
    a.num * b.den == b.num * a.den
}

/// `a < b` as rational numbers (both denominators positive).
pub open spec fn ratio_lt(a: Ratio, b: Ratio) -> bool {
    a.num * b.den < b.num * a.den
}

pub open spec fn gcd(a: nat, b: nat) -> nat
    decreases b,
{
    if b == 0 {
        a
    } else {
        gcd(b, a % b)
    }
}

/// `r` in lowest terms: numerator and denominator divided by their
/// greatest common divisor.
pub open spec fn reduced(r: Ratio) -> Ratio {
    let g = gcd(abs(r.num), abs(r.den));
    if g == 0 {
        r
    } else {
        Ratio {
            num: if r.num < 0 {
                -((abs(r.num) / g) as int)
            } else {
                (abs(r.num) / g) as int
            },
            den: (abs(r.den) / g) as int,
        }
    }
}

proof fn lemma_gcd_divides(a: nat, b: nat)
    ensures
        b > 0 ==> gcd(a, b) > 0,
        gcd(a, b) > 0 ==> a % gcd(a, b) == 0 && b % gcd(a, b) == 0,
    decreases b,
{
    if b > 0 {
        lemma_gcd_divides(b, a % b);
        let g = gcd(a, b);
        if a % b == 0 {
            assert(g == b);
        }
        if g > 0 {
            let ai = a as int;
            let bi = b as int;
            let gi = g as int;
            lemma_fundamental_div_mod(bi, gi);
            lemma_fundamental_div_mod((ai % bi), gi);
            lemma_fundamental_div_mod(ai, bi);
            let k = (bi / gi) * (ai / bi) + (ai % bi) / gi;
            assert(ai == gi * k) by (nonlinear_arith)
                requires
                    bi == gi * (bi / gi),
                    ai % bi == gi * ((ai % bi) / gi),
                    ai == bi * (ai / bi) + ai % bi,
                    k == (bi / gi) * (ai / bi) + (ai % bi) / gi,
            ;
            lemma_mod_multiples_basic(k, gi);
            assert(k * gi == gi * k) by (nonlinear_arith);
        }
    } else {
        if a > 0 {
            assert(a % a == 0) by (nonlinear_arith)
                requires
                    a > 0,
            ;
        }
    }
}

/// Reducing a fraction with a positive denominator keeps its value.
pub proof fn lemma_reduced_same_value(r: Ratio)
    requires
        r.den > 0,
    ensures
        ratio_eq(reduced(r), r),
        reduced(r).den > 0,
{
    let m = abs(r.num);
    let d = abs(r.den);
    lemma_gcd_divides(m, d);
    let g = gcd(m, d);
    let (mi, di, gi) = (m as int, d as int, g as int);
    lemma_fundamental_div_mod(mi, gi);
    lemma_fundamental_div_mod(di, gi);
    let (p, q) = (mi / gi, di / gi);
    assert(p * di == mi * q) by (nonlinear_arith)
        requires
            mi == gi * p,
            di == gi * q,
    ;
    assert(q > 0) by (nonlinear_arith)
        requires
            di == gi * q,
            di > 0,
            gi > 0,
    ;
    assert(di == r.den);
    if r.num < 0 {
        assert(mi == -r.num);
        assert((-p) * di == r.num * q) by (nonlinear_arith)
            requires
                p * di == mi * q,
                mi == -r.num,
        ;
    } else {
        assert(mi == r.num);
    }
}

/// The result of an arithmetic operation whose exact value is `r`: `r` in
/// lowest terms, where that fits the representation and `r`'s numerator
/// fits 128 bits; otherwise none.
pub open spec fn arith_result(r: Ratio) -> Option<Ratio> {
    if i128::MIN <= r.num <= i128::MAX && in_range(reduced(r)) {
        Some(reduced(r))
    } else {
        None
    }
}

pub open spec fn digit_char(d: nat) -> char {
    if d == 0 { '0' }
    else if d == 1 { '1' }
    else if d == 2 { '2' }
    else if d == 3 { '3' }
    else if d == 4 { '4' }
    else if d == 5 { '5' }
    else if d == 6 { '6' }
    else if d == 7 { '7' }
    else if d == 8 { '8' }
    else { '9' }
}

/// The decimal digits of `n`, most significant first, without leading zeros.
pub open spec fn decimal_text(n: nat) -> Seq<char>
    decreases n,
{
    if n < 10 {
        seq![digit_char(n)]
    } else {
        decimal_text(n / 10).push(digit_char(n % 10))
    }
}

/// The first `k` digits after the decimal point of `rem / den`, where
/// `rem < den`, stopping early once the expansion terminates.
pub open spec fn fraction_text(rem: nat, den: nat, k: nat) -> Seq<char>
    decreases k,
{
    if k == 0 || rem == 0 || den == 0 {
        Seq::empty()
    } else {
        seq![digit_char((rem * 10) / den)] + fraction_text((rem * 10) % den, den, (k - 1) as nat)
    }
}

pub open spec fn abs(n: int) -> nat {
    if n < 0 { (-n) as nat } else { n as nat }
}

/// How a number is written: an optional minus sign, the integer part and,
/// for a number that is not whole, a point and at most
/// [`FRACTION_DIGITS`] digits of the fraction (truncated).
pub open spec fn ratio_text(r: Ratio) -> Seq<char> {
    let m = abs(r.num);
    let d = r.den as nat;
    let sign = if r.num < 0 { seq!['-'] } else { Seq::empty() };
    let whole = decimal_text(m / d);
    if m % d == 0 {
        sign + whole
    } else {
        sign + whole + seq!['.'] + fraction_text(m % d, d, FRACTION_DIGITS as nat)
    }
}

proof fn lemma_cross_bound(n: int, d: int)
    requires
        i64::MIN <= n <= i64::MAX,
        0 <= d <= u64::MAX,
    ensures
        -0x7fff_ffff_ffff_ffff_8000_0000_0000_0000 <= n * d,
        n * d <= 0x7fff_ffff_ffff_fffe_8000_0000_0000_0001,
{
    assert(-0x8000_0000_0000_0000 * d <= n * d) by (nonlinear_arith)
        requires
            -0x8000_0000_0000_0000 <= n,
            0 <= d,
    ;
    assert(-0x8000_0000_0000_0000 * d >= -0x8000_0000_0000_0000 * 0xffff_ffff_ffff_ffff)
        by (nonlinear_arith)
        requires
            d <= 0xffff_ffff_ffff_ffff,
    ;
    assert(n * d <= 0x7fff_ffff_ffff_ffff * d) by (nonlinear_arith)
        requires
            n <= 0x7fff_ffff_ffff_ffff,
            0 <= d,
    ;
    assert(0x7fff_ffff_ffff_ffff * d <= 0x7fff_ffff_ffff_ffff * 0xffff_ffff_ffff_ffff)
        by (nonlinear_arith)
        requires
            d <= 0xffff_ffff_ffff_ffff,
    ;
}

/// `n * d` computed without overflow.
fn cross(n: i64, d: u64) -> (r: i128)
    ensures
        r == n * d,
        -0x7fff_ffff_ffff_ffff_8000_0000_0000_0000 <= r <= 0x7fff_ffff_ffff_fffe_8000_0000_0000_0001,
{
    proof {
        lemma_cross_bound(n as int, d as int);
    }
    (n as i128) * (d as i128)
}

/// The number `num / den` where it fits.
fn fit(num: i128, den: u128) -> (r: Option<Number>)
    ensures
        r is None <==> !in_range(Ratio { num: num as int, den: den as int }),
        r matches Some(x) ==> x@ == (Ratio { num: num as int, den: den as int }),
{
    if num < i64::MIN as i128 || num > i64::MAX as i128 || den == 0 || den > u64::MAX as u128 {
        None
    } else {
        Some(Number { num: num as i64, den: den as u64 })
    }
}

fn gcd_of(a: u128, b: u128) -> (r: u128)
    ensures
        r == gcd(a as nat, b as nat),
    decreases b,
{
    if b == 0 {
        a
    } else {
        gcd_of(b, a % b)
    }
}

/// The number `num / den` in lowest terms, where it fits.
fn reduce(num: i128, den: u128) -> (r: Option<Number>)
    ensures
        r is None <==> !in_range(reduced(Ratio { num: num as int, den: den as int })),
        r matches Some(x) ==> x@ == reduced(Ratio { num: num as int, den: den as int }),
{
    let m: u128 = if num < 0 {
        ((-(num + 1)) as u128) + 1
    } else {
        num as u128
    };
    let g = gcd_of(m, den);
    if g == 0 {
        return fit(num, den);
    }
    let m2 = m / g;
    let d2 = den / g;
    if m2 > 0x8000_0000_0000_0000 {
        return None;
    }
    let n2: i128 = if num < 0 {
        -(m2 as i128)
    } else {
        m2 as i128
    };
    fit(n2, d2)
}

impl View for Number {
    type V = Ratio;

    closed spec fn view(&self) -> Ratio {
        Ratio { num: self.num as int, den: self.den as int }
    }
}

impl Number {
    #[verifier::type_invariant]
    spec fn positive_denominator(&self) -> bool {
        self.den > 0
    }

    /// The whole number `n`.
    pub fn from_int(n: i64) -> (r: Number)
        ensures
            r@ == (Ratio { num: n as int, den: 1 }),
    {
        Number { num: n, den: 1 }
    }

    /// The fraction `num / den`, or `None` where `den` is zero.
    pub fn new(num: i64, den: u64) -> (r: Option<Number>)
        ensures
            r is None <==> den == 0,
            r matches Some(x) ==> x@ == (Ratio { num: num as int, den: den as int }),
    {
        if den == 0 {
            None
        } else {
            Some(Number { num, den })
        }
    }

    pub fn numerator(&self) -> (r: i64)
        ensures
            r == self@.num,
    {
        self.num
    }

    pub fn denominator(&self) -> (r: u64)
        ensures
            r == self@.den,
    {
        self.den
    }

    /// The sum in lowest terms, where it fits.
    pub fn add(&self, other: &Number) -> (r: Option<Number>)
        ensures
            r is None <==> arith_result(ratio_add(self@, other@)) is None,
            r matches Some(x) ==> arith_result(ratio_add(self@, other@)) == Some(x@),
    {
        proof {
            use_type_invariant(self);
            use_type_invariant(other);
        }
        if self.den == other.den {
            reduce(self.num as i128 + other.num as i128, self.den as u128)
        } else {
            let a = cross(self.num, other.den);
            let b = cross(other.num, self.den);
            proof {
                assert((self.den as u128) * (other.den as u128) <= u128::MAX) by (nonlinear_arith)
                    requires
                        self.den <= u64::MAX,
                        other.den <= u64::MAX,
                ;
            }
            let d = (self.den as u128) * (other.den as u128);
            match a.checked_add(b) {
                Some(n) => reduce(n, d),
                None => None,
            }
        }
    }

    /// The difference in lowest terms, where it fits.
    pub fn sub(&self, other: &Number) -> (r: Option<Number>)
        ensures
            r is None <==> arith_result(ratio_sub(self@, other@)) is None,
            r matches Some(x) ==> arith_result(ratio_sub(self@, other@)) == Some(x@),
    {
        proof {
            use_type_invariant(self);
            use_type_invariant(other);
        }
        if self.den == other.den {
            reduce(self.num as i128 - other.num as i128, self.den as u128)
        } else {
            let a = cross(self.num, other.den);
            let b = cross(other.num, self.den);
            proof {
                assert((self.den as u128) * (other.den as u128) <= u128::MAX) by (nonlinear_arith)
                    requires
                        self.den <= u64::MAX,
                        other.den <= u64::MAX,
                ;
            }
            let d = (self.den as u128) * (other.den as u128);
            match a.checked_sub(b) {
                Some(n) => reduce(n, d),
                None => None,
            }
        }
    }

    /// The product in lowest terms, where it fits.
    pub fn mul(&self, other: &Number) -> (r: Option<Number>)
        ensures
            r is None <==> arith_result(ratio_mul(self@, other@)) is None,
            r matches Some(x) ==> arith_result(ratio_mul(self@, other@)) == Some(x@),
    {
        proof {
            use_type_invariant(self);
            use_type_invariant(other);
            let (x, y) = (self.num as int, other.num as int);
            assert(-0x4000_0000_0000_0000_0000_0000_0000_0000 <= x * y <= 0x4000_0000_0000_0000_0000_0000_0000_0000)
                by (nonlinear_arith)
                requires
                    -0x8000_0000_0000_0000 <= x <= 0x7fff_ffff_ffff_ffff,
                    -0x8000_0000_0000_0000 <= y <= 0x7fff_ffff_ffff_ffff,
            ;
            assert((self.den as u128) * (other.den as u128) <= u128::MAX) by (nonlinear_arith)
                requires
                    self.den <= u64::MAX,
                    other.den <= u64::MAX,
            ;
        }
        reduce((self.num as i128) * (other.num as i128), (self.den as u128) * (other.den as u128))
    }

    /// The quotient in lowest terms; `None` where `other` is zero or the
    /// quotient does not fit.
    pub fn div(&self, other: &Number) -> (r: Option<Number>)
        ensures
            r is None <==> other@.num == 0 || arith_result(ratio_div(self@, other@)) is None,
            r matches Some(x) ==> arith_result(ratio_div(self@, other@)) == Some(x@),
    {
        proof {
            use_type_invariant(self);
            use_type_invariant(other);
        }
        if other.num == 0 {
            return None;
        }
        let n = cross(self.num, other.den);
        let m: u128 = if other.num >= 0 { other.num as u128 } else { (-(other.num as i128)) as u128 };
        proof {
            assert((self.den as u128) * m <= u128::MAX) by (nonlinear_arith)
                requires
                    self.den <= u64::MAX,
                    m <= 0x8000_0000_0000_0000,
            ;
        }
        if other.num >= 0 {
            reduce(n, (self.den as u128) * m)
        } else {
            reduce(-n, (self.den as u128) * m)
        }
    }

    /// The negation in lowest terms, where it fits.
    pub fn neg(&self) -> (r: Option<Number>)
        ensures
            r is None <==> arith_result(ratio_neg(self@)) is None,
            r matches Some(x) ==> arith_result(ratio_neg(self@)) == Some(x@),
    {
        proof {
            use_type_invariant(self);
        }
        reduce(-(self.num as i128), self.den as u128)
    }

    pub fn equals(&self, other: &Number) -> (r: bool)
        ensures
            r == ratio_eq(self@, other@),
    {
        cross(self.num, other.den) == cross(other.num, self.den)
    }

    pub fn less_than(&self, other: &Number) -> (r: bool)
        ensures
            r == ratio_lt(self@, other@),
    {
        cross(self.num, other.den) < cross(other.num, self.den)
    }

    /// How the number is written.
    pub fn to_text(&self) -> (r: Vec<char>)
        ensures
            r@ == ratio_text(self@),
    {
        proof {
            use_type_invariant(self);
        }
        let m: u64 = if self.num >= 0 { self.num as u64 } else { (-(self.num as i128)) as u64 };
        let mut out: Vec<char> = Vec::new();
        if self.num < 0 {
            out.push('-');
        }
        let mut whole = digits(m / self.den);
        out.append(&mut whole);
        let rem = m % self.den;
        if rem != 0 {
            out.push('.');
            let mut frac = fraction_digits(rem, self.den, FRACTION_DIGITS);
            out.append(&mut frac);
        }
        proof {
            let sign: Seq<char> = if self.num < 0 { seq!['-'] } else { Seq::empty() };
            assert(abs(self.num as int) == m as nat);
            if rem == 0 {
                assert(out@ =~= sign + decimal_text((m / self.den) as nat));
            } else {
                assert(out@ =~= sign + decimal_text((m / self.den) as nat) + seq!['.']
                    + fraction_text(rem as nat, self.den as nat, FRACTION_DIGITS as nat));
            }
        }
        out
    }
}

fn digit(d: u64) -> (c: char)
    requires
        d < 10,
    ensures
        c == digit_char(d as nat),
{
    if d == 0 { '0' }
    else if d == 1 { '1' }
    else if d == 2 { '2' }
    else if d == 3 { '3' }
    else if d == 4 { '4' }
    else if d == 5 { '5' }
    else if d == 6 { '6' }
    else if d == 7 { '7' }
    else if d == 8 { '8' }
    else { '9' }
}

fn digits(n: u64) -> (r: Vec<char>)
    ensures
        r@ == decimal_text(n as nat),
    decreases n,
{
    if n < 10 {
        vec![digit(n)]
    } else {
        let mut r = digits(n / 10);
        r.push(digit(n % 10));
        r
    }
}

fn fraction_digits(rem: u64, den: u64, k: u64) -> (r: Vec<char>)
    requires
        rem < den,
    ensures
        r@ == fraction_text(rem as nat, den as nat, k as nat),
    decreases k,
{
    if k == 0 || rem == 0 {
        Vec::new()
    } else {
        let t: u128 = rem as u128 * 10;
        proof {
            assert(t / (den as u128) < 10) by (nonlinear_arith)
                requires
                    t == rem * 10,
                    rem < den,
            ;
            assert(t % (den as u128) < den) by (nonlinear_arith)
                requires
                    0 < den,
            ;
        }
        let d = (t / den as u128) as u64;
        let next = (t % den as u128) as u64;
        let mut r = vec![digit(d)];
        let mut rest = fraction_digits(next, den, k - 1);
        r.append(&mut rest);
        proof {
            assert(r@ =~= seq![digit_char(((rem as nat) * 10) / (den as nat))]
                + fraction_text(((rem as nat) * 10) % (den as nat), den as nat, (k - 1) as nat));
        }
        r
    }
}

} // verus!
