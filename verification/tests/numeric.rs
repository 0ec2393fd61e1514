use epicycles::animation;
use epicycles::animation::Tick;
use epicycles::exact::{Arithmetic, Number};
use epicycles::math::{Fourier, FourierError};
use num_complex::Complex64;

/// Complex numbers in double precision.
#[derive(Clone, Copy, Debug, PartialEq)]
struct Rounded(Complex64);

impl Number for Rounded {
    fn zero() -> Self {
        Rounded(Complex64::new(0.0, 0.0))
    }

    fn one() -> Self {
        Rounded(Complex64::new(1.0, 0.0))
    }

    fn plus(self, other: Self) -> Self {
        Rounded(self.0 + other.0)
    }

    fn times(self, other: Self) -> Self {
        Rounded(self.0 * other.0)
    }

    fn conj(self) -> Self {
        Rounded(self.0.conj())
    }

    fn over(self, count: usize) -> Self {
        Rounded(self.0 / count as f64)
    }

    fn unit_root(size: usize, power: usize) -> Self {
        let angle = 2.0 * std::f64::consts::PI * power as f64 / size as f64;
        Rounded(Complex64::from_polar(1.0, angle))
    }

    fn finite(self) -> bool {
        self.0.re.is_finite() && self.0.im.is_finite()
    }
}

impl Arithmetic for Rounded {
    fn new_zero() -> Self {
        Self::zero()
    }

    fn added(&self, other: &Self) -> Self {
        self.plus(*other)
    }

    fn multiplied(&self, other: &Self) -> Self {
        self.times(*other)
    }

    fn conjugated(&self) -> Self {
        self.conj()
    }

    fn divided(&self, count: usize) -> Self {
        self.over(count)
    }

    fn root(size: usize, power: usize) -> Self {
        Self::unit_root(size, power)
    }

    fn is_finite(&self) -> bool {
        self.finite()
    }
}

fn on_the_line(values: &[f64]) -> Vec<Rounded> {
    values.iter().map(|&v| Rounded(Complex64::new(v, 0.0))).collect()
}

fn unit_step() -> Fourier<Rounded> {
    let data: Vec<f64> = (0..500).map(|i| if i > 150 && i < 350 { 1.0 } else { 0.0 }).collect();
    Fourier::from_complex(on_the_line(&data)).unwrap()
}

fn wobble(n: usize) -> Fourier<Rounded> {
    let data: Vec<f64> = (0..n)
        .map(|i| {
            let t = i as f64 / n as f64;
            0.75 + (6.283 * t).sin() - 0.5 * (3.0 * 6.283 * t).cos() + 0.1 * i as f64
        })
        .collect();
    Fourier::from_complex(on_the_line(&data)).unwrap()
}

fn curve(n: usize) -> Vec<Rounded> {
    (0..n)
        .map(|i| {
            let t = i as f64;
            Rounded(Complex64::new(3.0 * (0.3 * t).cos() + 0.2 * t, 2.0 * (0.7 * t).sin() - 1.0))
        })
        .collect()
}

fn close(a: Rounded, b: Rounded, tolerance: f64) -> bool {
    (a.0 - b.0).norm() <= tolerance * (1.0 + b.0.norm())
}

#[test]
fn non_finite_sample_is_rejected() {
    for bad in [f64::NAN, f64::INFINITY, f64::NEG_INFINITY] {
        let data = on_the_line(&[1.0, 2.0, bad, 4.0]);
        assert_eq!(Fourier::from_complex(data).err(), Some(FourierError::NonFiniteValue));
        let data = vec![Rounded(Complex64::new(1.0, 0.0)), Rounded(Complex64::new(1.0, bad))];
        assert_eq!(Fourier::from_complex(data).err(), Some(FourierError::NonFiniteValue));
    }
    assert_eq!(Fourier::<Rounded>::from_complex(Vec::new()).err(), Some(FourierError::EmptyInput));
    assert!(Fourier::from_complex(on_the_line(&[f64::MAX, f64::MIN_POSITIVE, -0.0])).is_ok());
}

#[test]
fn unit_step_scenario() {
    let fourier = unit_step();
    assert_eq!(fourier.size(), 500);
    let (freq, power) = fourier.power_spectrum(false);
    assert_eq!(freq.len(), 500);
    assert_eq!(freq[17], 17);
    // The samples 151 to 349 are 1: the mean is 199 / 500.
    let mean = 199.0 / 500.0;
    assert!((power[0].0.re - mean * mean).abs() < 1e-12);
    assert!((power[0].0.re - 0.4 * 0.4).abs() < 2e-3);
    assert_eq!(power[0].0.im, 0.0);
    let dc = fourier.filtered_range(0, 0).unwrap();
    assert_eq!(dc.len(), 500);
    for value in dc {
        assert!((value.0.re - mean).abs() < 1e-12);
        assert!((value.0.re - 0.4).abs() < 3e-3);
        assert!(value.0.im.abs() < 1e-12);
    }
}

#[test]
fn power_is_the_squared_magnitude() {
    let fourier = Fourier::from_complex(curve(12)).unwrap();
    let (_, power) = fourier.power_spectrum(false);
    for (p, c) in power.iter().zip(fourier.coefficients()) {
        assert!((p.0.re - c.0.norm_sqr()).abs() <= 1e-12 * (1.0 + c.0.norm_sqr()));
        assert_eq!(p.0.im, 0.0);
    }
}

#[test]
fn dc_band_is_the_mean_of_a_signal_of_floats() {
    let fourier = wobble(37);
    let mean = fourier.original().iter().map(|s| s.0).sum::<Complex64>() / 37.0;
    for value in fourier.filtered_range(0, 0).unwrap() {
        assert!(close(value, Rounded(mean), 1e-12));
    }
}

#[test]
fn full_band_of_an_odd_size_gives_floats_back() {
    for n in [1usize, 3, 7, 101, 255] {
        let fourier = wobble(n);
        let back = fourier.filtered_range(0, fourier.max_frequency()).unwrap();
        assert_eq!(back.len(), n);
        for i in 0..n {
            assert!(close(back[i], fourier.original()[i], 1e-4), "n = {}, i = {}", n, i);
        }
    }
    let signal = curve(45);
    let fourier = Fourier::from_complex(signal.clone()).unwrap();
    let back = fourier.filtered_range(0, 22).unwrap();
    for i in 0..45 {
        assert!(close(back[i], signal[i], 1e-9));
    }
}

#[test]
fn full_band_of_an_even_size_adds_the_middle_frequency_to_floats() {
    let n = 8;
    let fourier = wobble(n);
    let back = fourier.filtered_range(0, fourier.max_frequency()).unwrap();
    for i in 0..n {
        let middle = fourier.get_component(n / 2, i).unwrap();
        assert!(close(back[i], Rounded(fourier.original()[i].0 + middle.0), 1e-12));
    }
    // Without the middle frequency in the signal, the signal comes back.
    let fourier = Fourier::from_complex(on_the_line(&[1.0, 2.0, 2.0, 1.0])).unwrap();
    let back = fourier.filtered_range(0, 2).unwrap();
    for i in 0..4 {
        assert!(close(back[i], fourier.original()[i], 1e-12));
    }
}

#[test]
fn band_of_one_frequency_of_a_real_signal_is_real() {
    let fourier = wobble(41);
    for k in 1..=fourier.max_frequency() {
        for value in fourier.filtered_range(k, k).unwrap() {
            assert!(value.0.im.abs() < 1e-12, "k = {}", k);
        }
    }
    let fourier = unit_step();
    for k in [1usize, 2, 17, 250] {
        for value in fourier.filtered_range(k, k).unwrap() {
            assert!(value.0.im.abs() < 1e-12, "k = {}", k);
        }
    }
}

#[test]
fn mirror_coefficients_of_a_real_signal_are_conjugates() {
    let fourier = wobble(30);
    let c = fourier.coefficients();
    for k in 1..30 {
        assert!(close(c[30 - k], Rounded(c[k].0.conj()), 1e-12));
    }
}

#[test]
fn component_is_the_coefficient_times_the_root() {
    let fourier = Fourier::from_complex(curve(20)).unwrap();
    let c = fourier.coefficients();
    for (k, t) in [(0usize, 0usize), (3, 7), (19, 19), (5, 1000)] {
        let angle = 2.0 * std::f64::consts::PI * ((k * t) % 20) as f64 / 20.0;
        let expected = c[k].0 * Complex64::from_polar(1.0, angle);
        assert!(close(fourier.get_component(k, t).unwrap(), Rounded(expected), 1e-12));
    }
}

#[test]
fn tip_of_the_chain_is_the_reconstructed_sample() {
    let n = 45;
    for (k_min, k_max) in [(0usize, 0usize), (0, 5), (2, 9), (0, 22), (22, 22)] {
        let fourier = Fourier::from_complex(curve(n)).unwrap();
        let whole = fourier.filtered_range(k_min, k_max).unwrap();
        let animation = animation::Fourier::from_fourier(fourier, k_min, k_max).unwrap();
        assert_eq!(animation.reconstruction(), &whole[..]);
        for point in 0..n {
            let chain = animation.fourier_components(point).unwrap();
            // The same additions in the same order: the two agree to the last bit.
            assert_eq!(chain.last().unwrap().tip, whole[point]);
            // Each vector starts where the one before it ends.
            let mut tip = Rounded::zero();
            for vector in &chain {
                let component = animation.fourier().get_component(vector.index, point).unwrap();
                tip = tip.added(&component);
                assert_eq!(vector.tip, tip);
            }
        }
    }
}

#[test]
fn frames_of_a_running_animation_end_on_the_curve() {
    let n = 9;
    let signal = curve(n);
    let fourier = Fourier::from_complex(signal.clone()).unwrap();
    let mut animation = animation::Fourier::from_fourier(fourier, 0, 4).unwrap();
    animation.start();
    for tick in 1..=2 * n {
        match animation.step(20_000) {
            Tick::Frame(frame) => {
                assert_eq!(frame.current_point, tick % n);
                assert_eq!(frame.reconstructed, tick % n + 1);
                let tip = frame.epicycles.last().unwrap().tip;
                // The size is odd and the band is the widest: the tip is on the curve.
                assert!(close(tip, signal[frame.current_point], 1e-9));
            }
            other => panic!("{:?}", other),
        }
    }
}
