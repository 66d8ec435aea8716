use mpfft::bits::log2_exact;
use mpfft::bits::rev_index;
use mpfft::fft::Fft;
use mpfft::fft::FftError;
use mpfft::numeric::BigFloat;
use mpfft::numeric::ComplexSample;

/// A double-precision float that honours the configured bit precision
/// by truncating each result's significand to `prec` bits (for
/// `prec < 53`), mimicking a multi-precision float at low settings.
#[derive(Clone, Copy, Debug, PartialEq)]
struct F64Real {
    v: f64,
    prec: u32,
}

fn round_to(v: f64, prec: u32) -> f64 {
    if prec >= 53 || v == 0.0 || !v.is_finite() {
        return v;
    }
    let drop = 53 - prec as u64;
    let mask = !((1u64 << drop) - 1);
    f64::from_bits(v.to_bits() & mask)
}

impl BigFloat for F64Real {
    // The *_spec items are the library's ghost names for these
    // results; they are erased from every executable path and never
    // called at runtime.
    fn pi_spec(_precision: u32) -> Self {
        unreachable!()
    }

    fn from_ratio_spec(_precision: u32, _num: u64, _den: u64) -> Self {
        unreachable!()
    }

    fn plus_spec(self, _other: Self) -> Self {
        unreachable!()
    }

    fn minus_spec(self, _other: Self) -> Self {
        unreachable!()
    }

    fn times_spec(self, _other: Self) -> Self {
        unreachable!()
    }

    fn negated_spec(self) -> Self {
        unreachable!()
    }

    fn cosine_spec(self) -> Self {
        unreachable!()
    }

    fn sine_spec(self) -> Self {
        unreachable!()
    }

    fn pi(precision: u32) -> Self {
        F64Real { v: round_to(std::f64::consts::PI, precision), prec: precision }
    }

    fn from_ratio(precision: u32, num: u64, den: u64) -> Self {
        F64Real { v: round_to(num as f64 / den as f64, precision), prec: precision }
    }

    fn plus(&self, other: &Self) -> Self {
        F64Real { v: round_to(self.v + other.v, self.prec), prec: self.prec }
    }

    fn minus(&self, other: &Self) -> Self {
        F64Real { v: round_to(self.v - other.v, self.prec), prec: self.prec }
    }

    fn times(&self, other: &Self) -> Self {
        F64Real { v: round_to(self.v * other.v, self.prec), prec: self.prec }
    }

    fn negated(&self) -> Self {
        F64Real { v: -self.v, prec: self.prec }
    }

    fn cosine(&self) -> Self {
        F64Real { v: round_to(self.v.cos(), self.prec), prec: self.prec }
    }

    fn sine(&self) -> Self {
        F64Real { v: round_to(self.v.sin(), self.prec), prec: self.prec }
    }
}

fn sample(re: f64, im: f64, prec: u32) -> ComplexSample<F64Real> {
    ComplexSample::from_parts(F64Real { v: re, prec }, F64Real { v: im, prec })
}

fn buffer(values: &[(f64, f64)], prec: u32) -> Vec<ComplexSample<F64Real>> {
    values.iter().map(|&(re, im)| sample(re, im, prec)).collect()
}

#[test]
fn can_create_fft() {
    let fft = Fft::<F64Real>::new();
    assert!(fft.data.len() == 0);
}

#[test]
fn assign_data_records_length() {
    let mut fft = Fft::<F64Real>::new();
    fft.asign_data(buffer(&[(1.0, 0.0), (2.0, 0.0), (3.0, 0.0)], 53));
    assert_eq!(fft.data.len(), 3);
    assert_eq!(fft.n, 3);
    fft.asign_data(buffer(&[(4.0, 0.0)], 53));
    assert_eq!(fft.data.len(), 1);
    assert_eq!(fft.n, 1);
}

#[test]
fn invalid_length_is_refused_and_buffer_kept() {
    for n in [3usize, 5] {
        let values: Vec<(f64, f64)> = (0..n).map(|i| (i as f64, -(i as f64))).collect();
        let mut fft = Fft::<F64Real>::new();
        fft.asign_data(buffer(&values, 53));
        let r = fft.run();
        assert_eq!(r, Err(FftError::InvalidLength));
        for (i, &(re, im)) in values.iter().enumerate() {
            assert_eq!(fft.data[i].re.v, re);
            assert_eq!(fft.data[i].im.v, im);
        }
    }
}

#[test]
fn empty_buffer_is_refused() {
    let mut fft = Fft::<F64Real>::new();
    let r = fft.run();
    assert_eq!(r, Err(FftError::InvalidLength));
    assert_eq!(fft.data.len(), 0);
}

#[test]
fn bit_reversal_permutes_by_reversed_index() {
    let values: Vec<(f64, f64)> = (0..8).map(|i| (i as f64, 0.0)).collect();
    let mut fft = Fft::<F64Real>::new();
    fft.asign_data(buffer(&values, 53));
    fft.bit_reversal();
    let expect = [0.0f64, 4.0, 2.0, 6.0, 1.0, 5.0, 3.0, 7.0];
    for i in 0..8 {
        assert_eq!(fft.data[i].re.v, expect[i]);
    }
}

#[test]
fn bit_reversal_twice_restores_order() {
    for k in 0..5u32 {
        let n = 1usize << k;
        let values: Vec<(f64, f64)> = (0..n).map(|i| (i as f64, 100.0 + i as f64)).collect();
        let mut fft = Fft::<F64Real>::new();
        fft.asign_data(buffer(&values, 53));
        fft.bit_reversal();
        fft.bit_reversal();
        for i in 0..n {
            assert_eq!(fft.data[i].re.v, i as f64);
            assert_eq!(fft.data[i].im.v, 100.0 + i as f64);
        }
    }
}

#[test]
fn rev_index_reverses_bits() {
    assert_eq!(rev_index(3, 1), 4);
    assert_eq!(rev_index(3, 6), 3);
    assert_eq!(rev_index(4, 1), 8);
    assert_eq!(rev_index(0, 0), 0);
    assert_eq!(rev_index(10, 1), 512);
}

#[test]
fn log2_exact_inverts_powers() {
    assert_eq!(log2_exact(1), 0);
    assert_eq!(log2_exact(2), 1);
    assert_eq!(log2_exact(1024), 10);
}

#[test]
fn impulse_transforms_to_constant() {
    let mut fft = Fft::<F64Real>::new();
    fft.asign_data(buffer(&[(1.0, 0.0), (0.0, 0.0), (0.0, 0.0), (0.0, 0.0)], 53));
    assert_eq!(fft.run(), Ok(()));
    for i in 0..4 {
        assert!((fft.data[i].re.v - 1.0).abs() < 1e-12);
        assert!(fft.data[i].im.v.abs() < 1e-12);
    }
}

#[test]
fn constant_transforms_to_dc_bin() {
    let c = 0.375f64;
    let values: Vec<(f64, f64)> = (0..8).map(|_| (c, 0.0)).collect();
    let mut fft = Fft::<F64Real>::new();
    fft.asign_data(buffer(&values, 53));
    assert_eq!(fft.run(), Ok(()));
    assert!((fft.data[0].re.v - 8.0 * c).abs() < 1e-12);
    assert!(fft.data[0].im.v.abs() < 1e-12);
    for i in 1..8 {
        assert!(fft.data[i].re.v.abs() < 1e-12);
        assert!(fft.data[i].im.v.abs() < 1e-12);
    }
}

fn round_trip_case(values: &[(f64, f64)]) {
    let n = values.len();
    let mut fwd = Fft::<F64Real>::new();
    fwd.asign_data(buffer(values, 53));
    assert_eq!(fwd.run(), Ok(()));
    let mut inv = Fft::<F64Real>::with_parameters(-1, 53);
    inv.asign_data(fwd.data);
    assert_eq!(inv.run(), Ok(()));
    for (i, &(re, im)) in values.iter().enumerate() {
        assert!((inv.data[i].re.v / n as f64 - re).abs() < 1e-9);
        assert!((inv.data[i].im.v / n as f64 - im).abs() < 1e-9);
    }
}

#[test]
fn round_trip_reconstructs_input() {
    round_trip_case(&[(2.5, 0.0)]);
    round_trip_case(&[(1.0, -1.0), (0.25, 3.0)]);
    round_trip_case(&[(0.5, -1.25), (2.0, 0.75), (-3.5, 0.125), (1.0, 1.0)]);
    round_trip_case(&[
        (0.5, -1.25),
        (2.0, 0.75),
        (-3.5, 0.125),
        (1.0, 1.0),
        (0.0, -2.0),
        (4.25, 0.5),
        (-0.75, 3.0),
        (2.5, -0.5),
    ]);
}

fn impulse_deviation(prec: u32) -> f64 {
    // A unit impulse at index 1 of a length-8 buffer transforms to
    // bin j = cos(2 pi j / 8) + i sin(2 pi j / 8).
    let mut values = vec![(0.0f64, 0.0f64); 8];
    values[1] = (1.0, 0.0);
    let mut fft = Fft::<F64Real>::with_parameters(1, prec);
    fft.asign_data(buffer(&values, prec));
    assert_eq!(fft.run(), Ok(()));
    let mut dev = 0.0f64;
    for j in 0..8 {
        let angle = 2.0 * std::f64::consts::PI * j as f64 / 8.0;
        let dre = (fft.data[j].re.v - angle.cos()).abs();
        let dim = (fft.data[j].im.v - angle.sin()).abs();
        dev = dev.max(dre).max(dim);
    }
    dev
}

#[test]
fn higher_precision_does_not_increase_deviation() {
    let coarse = impulse_deviation(20);
    let fine = impulse_deviation(53);
    assert!(fine <= coarse);
    assert!(coarse < 1e-4);
    assert!(fine < 1e-12);
}
