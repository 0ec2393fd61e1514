use epicycles::animation;
use epicycles::complex7::Complex7;
use epicycles::exact::Arithmetic;
use epicycles::math::Fourier;
use epicycles::residue::Mod7;

fn on_the_line(numbers: &[u64]) -> Vec<Complex7> {
    numbers.iter().map(|&n| Complex7::new(n, 0)).collect()
}

/// Every real signal of four samples.
fn real_signals() -> Vec<Vec<Complex7>> {
    let mut signals = Vec::new();
    for code in 0..7u64.pow(4) {
        signals.push(on_the_line(&[code % 7, code / 7 % 7, code / 49 % 7, code / 343]));
    }
    signals
}

fn some_curves() -> Vec<Vec<Complex7>> {
    let mut curves = Vec::new();
    for seed in 0..200u64 {
        let curve = (0..4).map(|i| Complex7::new(seed * (i + 3) + i * i, seed / 7 + 2 * i)).collect();
        curves.push(curve);
    }
    curves
}

#[test]
fn field_arithmetic() {
    let i = Complex7::new(0, 1);
    assert_eq!(i.multiplied(&i), Complex7::new(6, 0));
    assert_eq!(Complex7::new(2, 3).added(&Complex7::new(6, 5)), Complex7::new(1, 1));
    // (2 + 3i)(4 + 5i) = 8 - 15 + (10 + 12)i = -7 + 22i
    assert_eq!(Complex7::new(2, 3).multiplied(&Complex7::new(4, 5)), Complex7::new(0, 1));
    assert_eq!(Complex7::new(2, 3).conjugated(), Complex7::new(2, 4));
    assert_eq!(Complex7::new(5, 0).conjugated(), Complex7::new(5, 0));
    assert_eq!(Complex7::new_zero(), Complex7::new(0, 0));
    assert!(i.is_finite());
    assert_eq!(Complex7::new(9, 15), Complex7 { re: Mod7::N2, im: Mod7::N1 });
    for re in 0..7 {
        for im in 0..7 {
            let x = Complex7::new(re, im);
            for count in 1..7usize {
                assert_eq!(x.divided(count).multiplied(&Complex7::new(count as u64, 0)), x);
            }
            assert_eq!(x.divided(14), Complex7::new(0, 0));
            // A number times its conjugate is on the real axis.
            assert_eq!(x.multiplied(&x.conjugated()), Complex7::new(re * re + im * im, 0));
        }
    }
}

#[test]
fn roots_of_the_field() {
    let fourth: Vec<Complex7> = (0..4).map(|m| Complex7::root(4, m)).collect();
    let expected = vec![
        Complex7::new(1, 0),
        Complex7::new(0, 1),
        Complex7::new(6, 0),
        Complex7::new(0, 6),
    ];
    assert_eq!(fourth, expected);
    assert_eq!(Complex7::root(4, 5), Complex7::new(0, 1));
    assert_eq!([Complex7::root(2, 0), Complex7::root(2, 1)], [Complex7::new(1, 0), Complex7::new(6, 0)]);
    assert_eq!(Complex7::root(1, 0), Complex7::new(1, 0));
    assert_eq!(Complex7::root(3, 1), Complex7::new(1, 0));
    for m in 0..4 {
        assert_eq!(fourth[m].conjugated(), fourth[(4 - m) % 4]);
    }
}

#[test]
fn band_of_one_frequency_of_a_real_signal_is_on_the_real_axis() {
    for signal in real_signals() {
        let fourier = Fourier::from_complex(signal).unwrap();
        for k in 1..=2 {
            for value in fourier.filtered_range(k, k).unwrap() {
                assert_eq!(value.im, Mod7::N0);
                assert_eq!(value.conjugated(), value);
            }
        }
    }
}

#[test]
fn mirror_coefficients_of_a_real_signal_are_exact_conjugates() {
    for signal in real_signals() {
        let fourier = Fourier::from_complex(signal).unwrap();
        let c = fourier.coefficients();
        for k in 1..4 {
            assert_eq!(c[4 - k], c[k].conjugated());
        }
        assert_eq!(c[0].im, Mod7::N0);
    }
}

#[test]
fn band_of_one_frequency_of_a_curve_need_not_be_real() {
    // 1, i, -1, -i turns once: its only coefficient is that of frequency 1.
    let turn: Vec<Complex7> = (0..4).map(|m| Complex7::root(4, m)).collect();
    let fourier = Fourier::from_complex(turn.clone()).unwrap();
    let zero = Complex7::new(0, 0);
    assert_eq!(fourier.coefficients(), &[zero, Complex7::new(1, 0), zero, zero][..]);
    assert_eq!(fourier.filtered_range(1, 1).unwrap(), turn);
    assert_eq!(fourier.filtered_range(0, 0).unwrap(), vec![zero; 4]);
}

#[test]
fn full_band_of_four_samples_adds_the_middle_frequency_once_more() {
    for signal in some_curves() {
        let fourier = Fourier::from_complex(signal.clone()).unwrap();
        let back = fourier.filtered_range(0, 2).unwrap();
        for i in 0..4 {
            let middle = fourier.get_component(2, i).unwrap();
            assert_eq!(back[i], signal[i].added(&middle));
        }
        let dc = fourier.filtered_range(0, 0).unwrap();
        let sum = signal.iter().fold(Complex7::new(0, 0), |acc, s| acc.added(s));
        assert_eq!(dc, vec![sum.divided(4); 4]);
    }
}

#[test]
fn power_of_a_coefficient_is_on_the_real_axis() {
    for signal in some_curves() {
        let fourier = Fourier::from_complex(signal).unwrap();
        let (freq, powers) = fourier.power_spectrum(true);
        assert_eq!(freq, vec![-1, 0, 1, 2]);
        let c = fourier.coefficients();
        for (place, index) in [3usize, 0, 1, 2].into_iter().enumerate() {
            assert_eq!(powers[place], c[index].multiplied(&c[index].conjugated()));
            assert_eq!(powers[place].im, Mod7::N0);
        }
    }
}

#[test]
fn chain_of_a_curve_ends_on_its_reconstruction() {
    for signal in some_curves() {
        for (k_min, k_max) in [(0usize, 0usize), (0, 1), (1, 2), (0, 2), (2, 2)] {
            let animation = animation::Fourier::new(signal.clone(), k_min, k_max).unwrap();
            for point in 0..4 {
                let chain = animation.fourier_components(point).unwrap();
                assert_eq!(chain.last().unwrap().tip, animation.reconstruction()[point]);
            }
        }
    }
}
