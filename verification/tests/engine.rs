use epicycles::exact::Arithmetic;
use epicycles::math::{Fourier, FourierError};
use epicycles::residue::Mod7;

fn residues(numbers: &[u64]) -> Vec<Mod7> {
    numbers.iter().map(|&n| Mod7::new(n)).collect()
}

fn engine(numbers: &[u64]) -> Fourier<Mod7> {
    Fourier::from_complex(residues(numbers)).unwrap()
}

/// Every signal of the given size.
fn all_signals(size: usize) -> Vec<Vec<Mod7>> {
    let mut signals = vec![Vec::new()];
    for _ in 0..size {
        let mut longer = Vec::new();
        for signal in &signals {
            for n in 0..7 {
                let mut next: Vec<Mod7> = signal.clone();
                next.push(Mod7::new(n));
                longer.push(next);
            }
        }
        signals = longer;
    }
    signals
}

#[test]
fn residues_compute_modulo_seven() {
    for a in 0..7u64 {
        assert_eq!(Mod7::new(a).value() as u64, a);
        assert_eq!(Mod7::new(a + 7), Mod7::new(a));
        assert_eq!(Mod7::new(a).conjugated(), Mod7::new(a));
        assert!(Mod7::new(a).is_finite());
        for b in 0..7u64 {
            assert_eq!(Mod7::new(a).added(&Mod7::new(b)), Mod7::new(a + b));
            assert_eq!(Mod7::new(a).multiplied(&Mod7::new(b)), Mod7::new(a * b));
        }
        for count in 1..7usize {
            let quotient = Mod7::new(a).divided(count);
            assert_eq!(quotient.multiplied(&Mod7::new(count as u64)), Mod7::new(a));
        }
        assert_eq!(Mod7::new(a).divided(7), Mod7::N0);
    }
    assert_eq!(Mod7::new_zero(), Mod7::N0);
    assert_eq!(Mod7::N3.divided(3), Mod7::N1);
    assert_eq!(Mod7::N1.divided(3), Mod7::N5);
}

#[test]
fn roots_modulo_seven() {
    assert_eq!(Mod7::root(1, 0), Mod7::N1);
    assert_eq!([Mod7::root(2, 0), Mod7::root(2, 1)], [Mod7::N1, Mod7::N6]);
    assert_eq!([Mod7::root(3, 0), Mod7::root(3, 1), Mod7::root(3, 2)], [Mod7::N1, Mod7::N2, Mod7::N4]);
    let sixth: Vec<Mod7> = (0..6).map(|m| Mod7::root(6, m)).collect();
    assert_eq!(sixth, vec![Mod7::N1, Mod7::N3, Mod7::N2, Mod7::N6, Mod7::N4, Mod7::N5]);
    // The table goes round.
    assert_eq!(Mod7::root(3, 4), Mod7::N2);
    // An order without a root has 1 in its place.
    assert_eq!(Mod7::root(4, 1), Mod7::N1);
    assert_eq!(Mod7::root(5, 3), Mod7::N1);
    for size in [1usize, 2, 3, 6] {
        // The root of the order, raised to the order, is 1.
        let mut power = Mod7::N1;
        for _ in 0..size {
            power = power.multiplied(&Mod7::root(size, 1));
        }
        assert_eq!(power, Mod7::N1);
        let table = engine(&vec![1; size]);
        let expected: Vec<Mod7> = (0..size).map(|m| Mod7::root(size, m)).collect();
        assert_eq!(table.roots(), &expected[..]);
    }
}

#[test]
fn empty_signal_is_rejected() {
    assert_eq!(Fourier::<Mod7>::from_complex(Vec::new()).err(), Some(FourierError::EmptyInput));
}

#[test]
fn signal_is_kept_as_given() {
    let fourier = engine(&[3, 1, 4, 1, 5, 2]);
    assert_eq!(fourier.size(), 6);
    assert_eq!(fourier.original(), &residues(&[3, 1, 4, 1, 5, 2])[..]);
    assert_eq!(fourier.coefficients().len(), 6);
}

#[test]
fn max_frequency_is_half_the_size() {
    assert_eq!(engine(&[1]).max_frequency(), 0);
    assert_eq!(engine(&[1, 2]).max_frequency(), 1);
    assert_eq!(engine(&[1, 2, 3]).max_frequency(), 1);
    assert_eq!(engine(&[1; 5]).max_frequency(), 2);
    assert_eq!(engine(&[1; 500]).max_frequency(), 250);
}

#[test]
fn coefficients_of_an_impulse_are_all_alike() {
    // Every coefficient of 1, 0, 0 is a third, which is 5 modulo 7.
    let fourier = engine(&[1, 0, 0]);
    assert_eq!(fourier.coefficients(), &residues(&[5, 5, 5])[..]);
}

#[test]
fn coefficients_are_the_divided_sums() {
    // c[k] = (s[0] + s[1] w^(-k) + s[2] w^(-2k)) / 3 with w = 2.
    let fourier = engine(&[1, 2, 3]);
    let third = Mod7::new(5);
    let sums = [1 + 2 + 3, 1 + 2 * 4 + 3 * 2, 1 + 2 * 2 + 3 * 4];
    let expected: Vec<Mod7> = sums.iter().map(|&s| Mod7::new(s).multiplied(&third)).collect();
    assert_eq!(fourier.coefficients(), &expected[..]);
    assert_eq!(fourier.coefficients(), &residues(&[2, 5, 1])[..]);
}

#[test]
fn full_band_of_an_odd_size_gives_the_signal_back() {
    for signal in all_signals(3) {
        let fourier = Fourier::from_complex(signal.clone()).unwrap();
        assert_eq!(fourier.filtered_range(0, 1).unwrap(), signal);
    }
    for signal in all_signals(1) {
        let fourier = Fourier::from_complex(signal.clone()).unwrap();
        assert_eq!(fourier.filtered_range(0, 0).unwrap(), signal);
    }
}

#[test]
fn full_band_of_an_even_size_adds_the_middle_frequency_once_more() {
    for size in [2usize, 6] {
        for (count, signal) in all_signals(size).into_iter().enumerate() {
            if size == 6 && count % 97 != 0 {
                continue;
            }
            let fourier = Fourier::from_complex(signal.clone()).unwrap();
            let back = fourier.filtered_range(0, size / 2).unwrap();
            for i in 0..size {
                let middle = fourier.get_component(size / 2, i).unwrap();
                assert_eq!(back[i], signal[i].added(&middle));
            }
        }
    }
    // Where the middle coefficient is 0, the signal comes back.
    let fourier = engine(&[1, 2, 2, 1, 3, 3]);
    assert_eq!(fourier.coefficients()[3], Mod7::N0);
    assert_eq!(fourier.filtered_range(0, 3).unwrap(), residues(&[1, 2, 2, 1, 3, 3]));
}

#[test]
fn dc_band_is_the_mean_at_every_sample() {
    for signal in all_signals(3) {
        let fourier = Fourier::from_complex(signal.clone()).unwrap();
        let sum = signal.iter().fold(Mod7::N0, |acc, s| acc.added(s));
        assert_eq!(fourier.filtered_range(0, 0).unwrap(), vec![sum.divided(3); 3]);
    }
    let fourier = engine(&[1, 2, 3, 4, 5, 6]);
    assert_eq!(fourier.filtered_range(0, 0).unwrap(), vec![Mod7::new(21).divided(6); 6]);
}

#[test]
fn band_sums_each_frequency_with_its_mirror() {
    let fourier = engine(&[3, 1, 4, 1, 5, 2]);
    for (k_min, k_max) in [(0usize, 0usize), (0, 2), (1, 2), (2, 3), (3, 3)] {
        let filtered = fourier.filtered_range(k_min, k_max).unwrap();
        assert_eq!(filtered.len(), 6);
        for i in 0..6 {
            let mut expected = Mod7::N0;
            for k in k_min..=k_max {
                expected = expected.added(&fourier.get_component(k, i).unwrap());
                if k != 0 {
                    expected = expected.added(&fourier.get_component(6 - k, i).unwrap());
                }
            }
            assert_eq!(filtered[i], expected);
        }
    }
}

#[test]
fn reversed_band_is_rejected() {
    let fourier = engine(&[1; 500]);
    assert_eq!(
        fourier.filtered_range(5, 3),
        Err(FourierError::InvalidRange { k_min: 5, k_max: 3, max_frequency: 250 })
    );
}

#[test]
fn band_past_max_frequency_is_rejected() {
    let fourier = engine(&[1; 500]);
    let max = fourier.max_frequency();
    assert_eq!(
        fourier.filtered_range(0, max + 1),
        Err(FourierError::InvalidRange { k_min: 0, k_max: 251, max_frequency: 250 })
    );
    assert!(fourier.filtered_range(0, max).is_ok());
    assert!(fourier.filtered_range(max, max).is_ok());
    assert!(engine(&[1]).filtered_range(0, 1).is_err());
}

#[test]
fn component_past_the_last_coefficient_is_rejected() {
    let fourier = engine(&[1; 500]);
    assert_eq!(fourier.get_component(500, 0), Err(FourierError::FrequencyOutOfBounds));
    assert_eq!(fourier.get_component(usize::MAX, 7), Err(FourierError::FrequencyOutOfBounds));
    assert!(fourier.get_component(499, 0).is_ok());
}

#[test]
fn component_is_the_coefficient_turned() {
    let fourier = engine(&[1, 2, 3]);
    // The coefficients are 2, 5, 1 and the roots 1, 2, 4.
    assert_eq!(fourier.get_component(0, 5), Ok(Mod7::new(2)));
    assert_eq!(fourier.get_component(1, 0), Ok(Mod7::new(5)));
    assert_eq!(fourier.get_component(1, 1), Ok(Mod7::new(5 * 2)));
    assert_eq!(fourier.get_component(1, 2), Ok(Mod7::new(5 * 4)));
    assert_eq!(fourier.get_component(2, 2), Ok(Mod7::new(1 * 2)));
    // A time step of any size is reduced without overflow.
    let phase = ((usize::MAX as u128 * 2) % 3) as usize;
    assert_eq!(
        fourier.get_component(2, usize::MAX),
        Ok(Mod7::new(1).multiplied(&Mod7::root(3, phase)))
    );
}

#[test]
fn power_spectrum_in_index_order() {
    let fourier = engine(&[1, 2, 3]);
    let (freq, powers) = fourier.power_spectrum(false);
    assert_eq!(freq, vec![0, 1, 2]);
    assert_eq!(powers, residues(&[2 * 2, 5 * 5, 1 * 1]));
}

#[test]
fn power_spectrum_centred() {
    let fourier = engine(&[1, 2, 3]);
    let (freq, powers) = fourier.power_spectrum(true);
    assert_eq!(freq, vec![-1, 0, 1]);
    assert_eq!(powers, residues(&[1 * 1, 2 * 2, 5 * 5]));
    let (freq, _) = engine(&[1; 4]).power_spectrum(true);
    assert_eq!(freq, vec![-1, 0, 1, 2]);
    let (freq, _) = engine(&[1; 5]).power_spectrum(true);
    assert_eq!(freq, vec![-2, -1, 0, 1, 2]);
    let (freq, powers) = engine(&[4]).power_spectrum(true);
    assert_eq!(freq, vec![0]);
    assert_eq!(powers, residues(&[4 * 4]));
    let six = engine(&[3, 1, 4, 1, 5, 2]);
    let (freq, powers) = six.power_spectrum(true);
    assert_eq!(freq, vec![-2, -1, 0, 1, 2, 3]);
    let c = six.coefficients();
    let expected: Vec<Mod7> = [4usize, 5, 0, 1, 2, 3].iter().map(|&k| c[k].multiplied(&c[k])).collect();
    assert_eq!(powers, expected);
}
