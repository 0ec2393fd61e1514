//! The discrete Fourier transform of a fixed signal.
//!
//! A [`Fourier`] takes a signal, computes its coefficients once and answers
//! from them: the signal rebuilt from a band of frequencies, the power
//! spectrum, and the value of one frequency at one sample position. It is
//! written for any numbers that can be added and multiplied, and does the same
//! additions and multiplications, in the same order, for all of them.
//!
//! The transform is the direct one: every coefficient is a sum over the whole
//! signal. The forward transform divides by the size and the inverse does not,
//! so that the widest band gives the signal back.
use crate::exact::{
    coefficients_of, lemma_total_push, reconstruction_of, root_table, total, Arithmetic, Number,
};
use crate::terms::{
    analysis_terms, band_valid, centred_index, component_of, max_frequency_of, pair_terms,
    signed_frequency, synthesis_terms, turn, turn_back, Term,
};
use vstd::prelude::*;

verus! {

/// Why a signal, a band or a frequency was turned down.
#[derive(Clone, Copy, Debug, PartialEq, Eq, Structural)]
pub enum FourierError {
    /// The signal has no samples.
    EmptyInput,
    /// Some sample is infinite or not a number.
    NonFiniteValue,
    /// The band `[k_min, k_max]` is reversed or reaches past `max_frequency`.
    InvalidRange { k_min: usize, k_max: usize, max_frequency: usize },
    /// The frequency is not the index of a coefficient.
    FrequencyOutOfBounds,
    /// The two coordinate lists of a curve differ in length.
    LengthMismatch,
}

/// A signal can be analysed when it has a sample and all its samples are finite.
pub open spec fn signal_valid<C: Number>(signal: Seq<C>) -> bool {
    signal.len() > 0 && forall|i: int| 0 <= i < signal.len() ==> (#[trigger] signal[i]).finite()
}

/// The reason for which a signal cannot be analysed, if there is one. An empty
/// signal is reported as such; otherwise a sample that is not finite is.
pub open spec fn signal_defect<C: Number>(signal: Seq<C>) -> Option<FourierError> {
    if signal.len() == 0 {
        Some(FourierError::EmptyInput)
    } else if !signal_valid(signal) {
        Some(FourierError::NonFiniteValue)
    } else {
        None
    }
}

/// The report of a band that does not fit a signal of `n` samples.
pub open spec fn band_error(n: int, k_min: usize, k_max: usize) -> FourierError {
    FourierError::InvalidRange { k_min, k_max, max_frequency: max_frequency_of(n) as usize }
}

/// The power of a coefficient: its squared magnitude, as the product with its
/// conjugate.
pub open spec fn power_of<C: Number>(c: C) -> C {
    c.times(c.conj())
}

/// The coefficient shown at `place` of a power spectrum. Unshifted, the
/// coefficients stand in index order. Shifted, they stand by rising signed
/// frequency, so that frequency 0 sits in the middle.
pub open spec fn spectrum_index(n: int, shifted: bool, place: int) -> int {
    if shifted {
        centred_index(n, place)
    } else {
        place
    }
}

/// The frequencies under which the bars of a power spectrum stand. Unshifted,
/// they are the indices of the coefficients. Shifted, they are the signed
/// frequencies.
pub open spec fn spectrum_frequencies(n: int, shifted: bool) -> Seq<i128> {
    Seq::new(
        n as nat,
        |place: int|
            if shifted {
                signed_frequency(n, centred_index(n, place)) as i128
            } else {
                place as i128
            },
    )
}

/// The power spectrum of a signal: the power of each coefficient, in the order
/// of `spectrum_index`.
pub open spec fn power_spectrum_of<C: Number>(signal: Seq<C>, shifted: bool) -> Seq<C> {
    Seq::new(
        signal.len(),
        |place: int|
            power_of(coefficients_of(signal)[spectrum_index(signal.len() as int, shifted, place)]),
    )
}

/// A signal with its coefficients. It is fixed once created: no method changes
/// it.
pub struct Fourier<C: Arithmetic> {
    original: Vec<C>,
    // The coefficients, one for each frequency index.
    transform: Vec<C>,
    // The powers of the root of unity.
    roots: Vec<C>,
}

impl<C: Arithmetic> View for Fourier<C> {
    type V = Seq<C>;

    /// The samples of the signal.
    closed spec fn view(&self) -> Seq<C> {
        self.original@
    }
}

impl<C: Arithmetic> Fourier<C> {
    #[verifier::type_invariant]
    spec fn well_formed(self) -> bool {
        &&& signal_valid(self.original@)
        &&& self.roots@ == root_table::<C>(self.original@.len())
        &&& self.transform@ == coefficients_of(self.original@)
    }

    /// Takes a signal and computes its coefficients. The signal is turned down
    /// when it is empty or holds a sample that is not finite.
    pub fn from_complex(data: Vec<C>) -> (r: Result<Fourier<C>, FourierError>)
        ensures
            match r {
                Ok(fourier) => signal_defect(data@) is None && fourier@ == data@,
                Err(e) => signal_defect(data@) == Some(e),
            },
    {
        if data.len() == 0 {
            return Err(FourierError::EmptyInput);
        }
        let mut i: usize = 0;
        while i < data.len()
            invariant
                i <= data.len(),
                forall|j: int| 0 <= j < i ==> (#[trigger] data@[j]).finite(),
            decreases data.len() - i,
        {
            if !data[i].is_finite() {
                return Err(FourierError::NonFiniteValue);
            }
            i = i + 1;
        }
        let roots = unit_roots::<C>(data.len());
        let transform = dft(&data, &roots);
        Ok(Fourier { original: data, transform, roots })
    }

    /// The number of samples of the signal, which is also the number of its
    /// coefficients.
    pub fn size(&self) -> (n: usize)
        ensures
            n == self@.len(),
            n >= 1,
    {
        proof {
            use_type_invariant(self);
        }
        self.original.len()
    }

    /// The signal as it was given.
    pub fn original(&self) -> (signal: &[C])
        ensures
            signal@ == self@,
            signal_valid(signal@),
    {
        proof {
            use_type_invariant(self);
        }
        self.original.as_slice()
    }

    /// The coefficients of the signal, one for each frequency index.
    pub fn coefficients(&self) -> (coefficients: &[C])
        ensures
            coefficients@ == coefficients_of(self@),
    {
        proof {
            use_type_invariant(self);
        }
        self.transform.as_slice()
    }

    /// The powers of the root of unity that turn the coefficients.
    pub fn roots(&self) -> (roots: &[C])
        ensures
            roots@ == root_table::<C>(self@.len()),
    {
        proof {
            use_type_invariant(self);
        }
        self.roots.as_slice()
    }

    /// The largest frequency that a band may name: half the size, rounded down.
    pub fn max_frequency(&self) -> (m: usize)
        ensures
            m == max_frequency_of(self@.len() as int),
    {
        self.original.len() / 2
    }

    /// Rebuilds the signal from the frequencies `k_min` to `k_max` alone. Every
    /// frequency of the band but 0 brings its mirror, the frequency of the
    /// opposite sign, with it. The band is turned down when it is reversed or
    /// reaches past `max_frequency`.
    pub fn filtered_range(&self, k_min: usize, k_max: usize) -> (r: Result<Vec<C>, FourierError>)
        ensures
            match r {
                Ok(filtered) => band_valid(self@.len() as int, k_min as int, k_max as int)
                    && filtered@ == reconstruction_of(self@, k_min as int, k_max as int),
                Err(e) => !band_valid(self@.len() as int, k_min as int, k_max as int) && e
                    == band_error(self@.len() as int, k_min, k_max),
            },
    {
        proof {
            use_type_invariant(self);
        }
        let max_k = self.max_frequency();
        if k_min > k_max || k_max > max_k {
            return Err(FourierError::InvalidRange { k_min, k_max, max_frequency: max_k });
        }
        Ok(idft(&self.transform, &self.roots, k_min, k_max))
    }

    /// The power spectrum: the frequencies and, for each, the power of its
    /// coefficient. Unshifted, the coefficients stand in index order: frequency
    /// 0 first, then the rising frequencies, then their mirrors. Shifted, they
    /// stand by rising signed frequency, with frequency 0 in the middle.
    pub fn power_spectrum(&self, shifted: bool) -> (r: (Vec<i128>, Vec<C>))
        ensures
            r.0@ == spectrum_frequencies(self@.len() as int, shifted),
            r.1@ == power_spectrum_of(self@, shifted),
    {
        proof {
            use_type_invariant(self);
        }
        let n = self.original.len();
        let half = n / 2;
        let mut freq: Vec<i128> = Vec::new();
        let mut powers: Vec<C> = Vec::new();
        let mut place: usize = 0;
        while place < n
            invariant
                place <= n,
                n >= 1,
                n == self.original@.len() == self.transform@.len(),
                self.transform@ == coefficients_of(self.original@),
                half == max_frequency_of(n as int),
                freq@ == spectrum_frequencies(n as int, shifted).take(place as int),
                powers@ == power_spectrum_of(self.original@, shifted).take(place as int),
            decreases n - place,
        {
            let index = if shifted {
                ((place as u128 + half as u128 + 1) % (n as u128)) as usize
            } else {
                place
            };
            let frequency = if shifted && index > half {
                index as i128 - n as i128
            } else {
                index as i128
            };
            let coefficient = &self.transform[index];
            freq.push(frequency);
            powers.push(coefficient.multiplied(&coefficient.conjugated()));
            place = place + 1;
            assert(freq@ == spectrum_frequencies(n as int, shifted).take(place as int));
            assert(powers@ == power_spectrum_of(self.original@, shifted).take(place as int));
        }
        assert(freq@ == spectrum_frequencies(n as int, shifted));
        assert(powers@ == power_spectrum_of(self.original@, shifted));
        (freq, powers)
    }

    /// The value of one frequency at one sample position: the coefficient at
    /// `frequency`, turned by `frequency * time_step` steps of the root of
    /// unity. It is one vector of the chain of rotating vectors.
    pub fn get_component(&self, frequency: usize, time_step: usize) -> (r: Result<C, FourierError>)
        ensures
            match r {
                Ok(component) => frequency < self@.len() && component == value_at(
                    self@,
                    frequency as int,
                    time_step as int,
                ),
                Err(e) => frequency >= self@.len() && e == FourierError::FrequencyOutOfBounds,
            },
    {
        proof {
            use_type_invariant(self);
        }
        let n = self.original.len();
        if frequency >= n {
            return Err(FourierError::FrequencyOutOfBounds);
        }
        Ok(self.transform[frequency].multiplied(&self.roots[turn(n, frequency, time_step)]))
    }
}

/// The value of the frequency `frequency` of a signal at the sample position
/// `time_step`: `c[frequency] * exp(+2*pi*i * frequency * time_step / n)`.
pub open spec fn value_at<C: Number>(signal: Seq<C>, frequency: int, time_step: int) -> C {
    crate::exact::value_of(
        component_of(signal.len() as int, frequency, time_step),
        coefficients_of(signal),
        root_table(signal.len()),
    )
}

/// The table of the powers of the root of unity of order `n`.
fn unit_roots<C: Arithmetic>(n: usize) -> (roots: Vec<C>)
    ensures
        roots@ == root_table::<C>(n as nat),
{
    let mut roots: Vec<C> = Vec::new();
    let mut m: usize = 0;
    while m < n
        invariant
            m <= n,
            roots@ == root_table::<C>(n as nat).take(m as int),
        decreases n - m,
    {
        roots.push(C::root(n, m));
        m = m + 1;
        assert(roots@ == root_table::<C>(n as nat).take(m as int));
    }
    assert(roots@ == root_table::<C>(n as nat));
    roots
}

/// The forward transform: for each frequency `k` the sum over `i` of
/// `data[i] * exp(-2*pi*i * k * i / n)`, divided by `n`.
fn dft<C: Arithmetic>(data: &Vec<C>, roots: &Vec<C>) -> (transform: Vec<C>)
    requires
        data@.len() >= 1,
        roots@ == root_table::<C>(data@.len()),
    ensures
        transform@ == coefficients_of(data@),
{
    let total_points = data.len();
    let ghost n = total_points as int;
    let mut transform: Vec<C> = Vec::new();
    let mut k: usize = 0;
    while k < total_points
        invariant
            k <= total_points,
            n == total_points == data@.len() == roots@.len(),
            n >= 1,
            roots@ == root_table::<C>(data@.len()),
            transform@ == coefficients_of(data@).take(k as int),
        decreases total_points - k,
    {
        let ghost terms = analysis_terms(n, k as int);
        let mut res = C::new_zero();
        let mut i: usize = 0;
        while i < total_points
            invariant
                i <= total_points,
                k < total_points,
                n == total_points == data@.len() == roots@.len(),
                n >= 1,
                terms == analysis_terms(n, k as int),
                res == total(terms.take(i as int), data@, roots@),
            decreases total_points - i,
        {
            let phase = turn_back(total_points, k, i);
            proof {
                assert(terms.take(i + 1) =~= terms.take(i as int).push(terms[i as int]));
                assert(terms[i as int] == Term { index: i, phase });
                lemma_total_push(terms.take(i as int), terms[i as int], data@, roots@);
            }
            res = res.added(&data[i].multiplied(&roots[phase]));
            i = i + 1;
        }
        assert(terms.take(n) =~= terms);
        transform.push(res.divided(total_points));
        k = k + 1;
        assert(transform@ == coefficients_of(data@).take(k as int));
    }
    assert(transform@ == coefficients_of(data@));
    transform
}

/// One sample of the inverse transform restricted to a band: the sum over the
/// frequencies `k` of the band of `c[k] * exp(+2*pi*i * k * i / n)` and, unless
/// `k` is 0, of the same for the mirror of `k` at the index `n - k`.
pub(crate) fn idft_at<C: Arithmetic>(
    transform: &Vec<C>,
    roots: &Vec<C>,
    k_min: usize,
    k_max: usize,
    i: usize,
) -> (res: C)
    requires
        1 <= transform@.len() == roots@.len(),
        band_valid(transform@.len() as int, k_min as int, k_max as int),
    ensures
        res == total(
            synthesis_terms(transform@.len() as int, k_min as int, k_max as int, i as int),
            transform@,
            roots@,
        ),
{
    let total_points = transform.len();
    let ghost n = total_points as int;
    let mut res = C::new_zero();
    let mut k: usize = k_min;
    while k <= k_max
        invariant
            n == total_points == transform@.len() == roots@.len(),
            n >= 1,
            band_valid(n, k_min as int, k_max as int),
            k_min <= k <= k_max + 1,
            res == total(
                synthesis_terms(n, k_min as int, k as int - 1, i as int),
                transform@,
                roots@,
            ),
        decreases k_max + 1 - k,
    {
        let ghost before = synthesis_terms(n, k_min as int, k as int - 1, i as int);
        let ghost own = component_of(n, k as int, i as int);
        proof {
            lemma_total_push(before, own, transform@, roots@);
        }
        // The frequency itself.
        res = res.added(&transform[k].multiplied(&roots[turn(total_points, k, i)]));
        if k != 0 {
            let ghost mirror = component_of(n, n - k, i as int);
            proof {
                lemma_total_push(before.push(own), mirror, transform@, roots@);
                assert(before + pair_terms(n, k as int, i as int) =~= before.push(own).push(
                    mirror,
                ));
            }
            // Its mirror. Frequency 0 is its own mirror and counts once.
            res = res.added(
                &transform[total_points - k].multiplied(
                    &roots[turn(total_points, total_points - k, i)],
                ),
            );
        } else {
            assert(before + pair_terms(n, k as int, i as int) =~= before.push(own));
        }
        k = k + 1;
    }
    res
}

/// The inverse transform restricted to a band, at every sample position.
pub(crate) fn idft<C: Arithmetic>(
    transform: &Vec<C>,
    roots: &Vec<C>,
    k_min: usize,
    k_max: usize,
) -> (result: Vec<C>)
    requires
        1 <= transform@.len() == roots@.len(),
        band_valid(transform@.len() as int, k_min as int, k_max as int),
    ensures
        result@ == Seq::new(
            transform@.len(),
            |i: int|
                total(
                    synthesis_terms(transform@.len() as int, k_min as int, k_max as int, i),
                    transform@,
                    roots@,
                ),
        ),
{
    let total_points = transform.len();
    let ghost whole = Seq::new(
        transform@.len(),
        |i: int|
            total(
                synthesis_terms(transform@.len() as int, k_min as int, k_max as int, i),
                transform@,
                roots@,
            ),
    );
    let mut result: Vec<C> = Vec::new();
    let mut i: usize = 0;
    while i < total_points
        invariant
            i <= total_points,
            1 <= total_points == transform@.len() == roots@.len(),
            band_valid(transform@.len() as int, k_min as int, k_max as int),
            whole == Seq::new(
                transform@.len(),
                |i: int|
                    total(
                        synthesis_terms(transform@.len() as int, k_min as int, k_max as int, i),
                        transform@,
                        roots@,
                    ),
            ),
            result@ == whole.take(i as int),
        decreases total_points - i,
    {
        result.push(idft_at(transform, roots, k_min, k_max, i));
        i = i + 1;
        assert(result@ == whole.take(i as int));
    }
    assert(result@ == whole);
    result
}

} // verus!
