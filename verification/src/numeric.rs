use vstd::prelude::*;

verus! {

/// The numeric capability the transform is written against: an
/// arbitrary-precision real number. Any multi-precision float type can
/// supply it (each value carries the precision it was built with, and
/// arithmetic keeps the precision of its operands). Each operation's
/// result is named by a spec function of the same arguments: at a
/// fixed precision the arithmetic is a function of its operands alone,
/// so the names pin the results without fixing a particular rounding.
pub trait BigFloat: Sized {
    /// The value an implementation returns for `pi(precision)`.
    spec fn pi_spec(precision: u32) -> Self;

    /// The constant pi, computed at `precision` bits.
    fn pi(precision: u32) -> (r: Self)
        ensures
            r == Self::pi_spec(precision),
    ;

    /// The value an implementation returns for `from_ratio`.
    spec fn from_ratio_spec(precision: u32, num: u64, den: u64) -> Self;

    /// The ratio `num / den`, computed at `precision` bits.
    fn from_ratio(precision: u32, num: u64, den: u64) -> (r: Self)
        requires
            den > 0,
        ensures
            r == Self::from_ratio_spec(precision, num, den),
    ;

    /// The value an implementation returns for `plus`.
    spec fn plus_spec(self, other: Self) -> Self;

    /// The sum `self + other`.
    fn plus(&self, other: &Self) -> (r: Self)
        ensures
            r == (*self).plus_spec(*other),
    ;

    /// The value an implementation returns for `minus`.
    spec fn minus_spec(self, other: Self) -> Self;

    /// The difference `self - other`.
    fn minus(&self, other: &Self) -> (r: Self)
        ensures
            r == (*self).minus_spec(*other),
    ;

    /// The value an implementation returns for `times`.
    spec fn times_spec(self, other: Self) -> Self;

    /// The product `self * other`.
    fn times(&self, other: &Self) -> (r: Self)
        ensures
            r == (*self).times_spec(*other),
    ;

    /// The value an implementation returns for `negated`.
    spec fn negated_spec(self) -> Self;

    /// The negation `-self`.
    fn negated(&self) -> (r: Self)
        ensures
            r == (*self).negated_spec(),
    ;

    /// The value an implementation returns for `cosine`.
    spec fn cosine_spec(self) -> Self;

    /// The cosine of `self`.
    fn cosine(&self) -> (r: Self)
        ensures
            r == (*self).cosine_spec(),
    ;

    /// The value an implementation returns for `sine`.
    spec fn sine_spec(self) -> Self;

    /// The sine of `self`.
    fn sine(&self) -> (r: Self)
        ensures
            r == (*self).sine_spec(),
    ;
}

/// An arbitrary-precision complex number: a real and an imaginary
/// part. Values are immutable once constructed; arithmetic produces
/// new values.
pub struct ComplexSample<R> {
    pub re: R,
    pub im: R,
}

impl<R: BigFloat> ComplexSample<R> {
    /// Component-wise complex addition.
    pub open spec fn plus_spec(self, other: Self) -> Self {
        ComplexSample { re: self.re.plus_spec(other.re), im: self.im.plus_spec(other.im) }
    }

    /// Component-wise complex subtraction.
    pub open spec fn minus_spec(self, other: Self) -> Self {
        ComplexSample { re: self.re.minus_spec(other.re), im: self.im.minus_spec(other.im) }
    }

    /// Complex multiplication: `(a + bi)(c + di) == (ac - bd) + (ad + bc)i`.
    pub open spec fn times_spec(self, other: Self) -> Self {
        ComplexSample {
            re: self.re.times_spec(other.re).minus_spec(self.im.times_spec(other.im)),
            im: self.re.times_spec(other.im).plus_spec(self.im.times_spec(other.re)),
        }
    }

    /// The twiddle factor `cos(angle) + sin(angle) i` for the angle
    /// `(2 num / den) pi`, negated when `negate` holds, everything at
    /// `precision` bits.
    pub open spec fn unit_phasor_spec(precision: u32, negate: bool, num: u64, den: u64) -> Self {
        let turn = R::from_ratio_spec(precision, (2 * num) as u64, den).times_spec(
            R::pi_spec(precision),
        );
        let angle = if negate {
            turn.negated_spec()
        } else {
            turn
        };
        ComplexSample { re: angle.cosine_spec(), im: angle.sine_spec() }
    }

    /// Builds a complex number from its real and imaginary parts.
    pub fn from_parts(re: R, im: R) -> (r: Self)
        ensures
            r.re == re,
            r.im == im,
    {
        ComplexSample { re, im }
    }

    /// Complex addition: `(a + bi) + (c + di) == (a + c) + (b + d)i`.
    pub fn plus(&self, other: &Self) -> (r: Self)
        ensures
            r == (*self).plus_spec(*other),
    {
        ComplexSample { re: self.re.plus(&other.re), im: self.im.plus(&other.im) }
    }

    /// Complex subtraction: `(a + bi) - (c + di) == (a - c) + (b - d)i`.
    pub fn minus(&self, other: &Self) -> (r: Self)
        ensures
            r == (*self).minus_spec(*other),
    {
        ComplexSample { re: self.re.minus(&other.re), im: self.im.minus(&other.im) }
    }

    /// Complex multiplication:
    /// `(a + bi)(c + di) == (ac - bd) + (ad + bc)i`.
    pub fn times(&self, other: &Self) -> (r: Self)
        ensures
            r == (*self).times_spec(*other),
    {
        let ac = self.re.times(&other.re);
        let bd = self.im.times(&other.im);
        let ad = self.re.times(&other.im);
        let bc = self.im.times(&other.re);
        ComplexSample { re: ac.minus(&bd), im: ad.plus(&bc) }
    }

    /// The twiddle factor for the angle `sign * (2 num / den) * pi`,
    /// with the sign given as the `negate` flag.
    pub fn unit_phasor(precision: u32, negate: bool, num: u64, den: u64) -> (r: Self)
        requires
            den > 0,
            num <= u64::MAX / 2,
        ensures
            r == Self::unit_phasor_spec(precision, negate, num, den),
    {
        let ratio = R::from_ratio(precision, 2 * num, den);
        let turn = ratio.times(&R::pi(precision));
        let angle = if negate {
            turn.negated()
        } else {
            turn
        };
        ComplexSample { re: angle.cosine(), im: angle.sine() }
    }
}

} // verus!
