//! The terms of the transform.
//!
//! A transform of length `N` multiplies numbers by powers of the root of unity
//! `w = exp(2*pi*i / N)` and adds the products. A [`Term`] stands for one such
//! product, `input[index] * w^phase`, and every sum of the transform is a
//! sequence of terms. Which number meets which power is arithmetic on whole
//! numbers, and it is all here.
//!
//! For a transform of length `N` the index `N - k` carries the frequency `-k`.
use vstd::prelude::*;

verus! {

/// The product `input[index] * w^phase`, where `w = exp(2*pi*i / N)`.
#[derive(Clone, Copy, Debug, PartialEq, Eq, Structural)]
pub struct Term {
    pub index: usize,
    pub phase: usize,
}

/// The largest frequency that a band over `n` samples may name.
pub open spec fn max_frequency_of(n: int) -> int {
    n / 2
}

/// A band `[k_min, k_max]` is accepted when it is not reversed and stays within
/// the half spectrum.
pub open spec fn band_valid(n: int, k_min: int, k_max: int) -> bool {
    0 <= k_min <= k_max <= max_frequency_of(n)
}

/// The power of `w` that rotates the coefficient at `frequency` to the sample
/// position `time_step`: `frequency * time_step`, reduced modulo `n`.
pub open spec fn phase_of(n: int, frequency: int, time_step: int) -> int {
    (frequency * time_step) % n
}

/// The contribution of one frequency at one sample position:
/// `coefficients[frequency] * exp(+2*pi*i * frequency * time_step / n)`.
pub open spec fn component_of(n: int, frequency: int, time_step: int) -> Term {
    Term { index: frequency as usize, phase: phase_of(n, frequency, time_step) as usize }
}

/// What the frequency `k` adds to the sample at `time_step`: its own
/// coefficient and, unless `k` is 0, the coefficient of `-k` at index `n - k`.
pub open spec fn pair_terms(n: int, k: int, time_step: int) -> Seq<Term> {
    if k == 0 {
        seq![component_of(n, 0, time_step)]
    } else {
        seq![component_of(n, k, time_step), component_of(n, n - k, time_step)]
    }
}

/// The band-limited inverse transform at one sample position, as the terms of
/// the sum over `k` from `k_min` to `k_max` of
/// `c[k] * w^(k * i) + [k > 0] c[n - k] * w^((n - k) * i)`.
pub open spec fn synthesis_terms(n: int, k_min: int, k_max: int, time_step: int) -> Seq<Term>
    decreases k_max - k_min + 1,
{
    if k_max < k_min {
        Seq::empty()
    } else {
        synthesis_terms(n, k_min, k_max - 1, time_step) + pair_terms(n, k_max, time_step)
    }
}

/// The coefficient indices that the frequency `k` stands for.
pub open spec fn pair_indices(n: int, k: int) -> Seq<usize> {
    if k == 0 {
        seq![0usize]
    } else {
        seq![k as usize, (n - k) as usize]
    }
}

/// The coefficient indices that a band selects, in the order in which they are
/// summed: each frequency from `k_min` to `k_max`, followed by its mirror.
pub open spec fn band_indices(n: int, k_min: int, k_max: int) -> Seq<usize>
    decreases k_max - k_min + 1,
{
    if k_max < k_min {
        Seq::empty()
    } else {
        band_indices(n, k_min, k_max - 1) + pair_indices(n, k_max)
    }
}

/// How many coefficients a band selects.
pub open spec fn band_len(k_min: int, k_max: int) -> int {
    if k_max < k_min {
        0
    } else if k_min == 0 {
        2 * k_max + 1
    } else {
        2 * (k_max - k_min + 1)
    }
}

/// The chain of rotating vectors at one sample position: the component of each
/// selected coefficient, in band order.
pub open spec fn epicycle_chain(n: int, k_min: int, k_max: int, time_step: int) -> Seq<Term> {
    band_indices(n, k_min, k_max).map_values(|f: usize| component_of(n, f as int, time_step))
}

/// The power of `w` that the sample at `position` meets in the forward
/// transform for `frequency`: `-(frequency * position)`, reduced modulo `n`.
pub open spec fn analysis_phase(n: int, frequency: int, position: int) -> int {
    (n - phase_of(n, frequency, position)) % n
}

/// The forward transform for one frequency, before the division by `n`: the
/// terms of the sum over `i` of `sample[i] * exp(-2*pi*i * frequency * i / n)`.
pub open spec fn analysis_terms(n: int, frequency: int) -> Seq<Term> {
    Seq::new(
        n as nat,
        |i: int| Term { index: i as usize, phase: analysis_phase(n, frequency, i) as usize },
    )
}

/// The signed frequency that the coefficient at `index` carries: indices up to
/// `max_frequency` are themselves, those above it stand for `index - n`.
pub open spec fn signed_frequency(n: int, index: int) -> int {
    if index <= max_frequency_of(n) {
        index
    } else {
        index - n
    }
}

/// The coefficient index shown at `place` of a centred spectrum, which lists the
/// coefficients by rising signed frequency.
pub open spec fn centred_index(n: int, place: int) -> int {
    (place + max_frequency_of(n) + 1) % n
}

/// The power of `w` that turns the coefficient at `frequency` to the sample
/// position `time_step`: their product modulo `n`, computed without overflow.
pub(crate) fn turn(n: usize, frequency: usize, time_step: usize) -> (phase: usize)
    requires
        n >= 1,
    ensures
        phase == phase_of(n as int, frequency as int, time_step as int),
        phase < n,
{
    assert(frequency * time_step <= u128::MAX) by (nonlinear_arith)
        requires
            frequency <= 0xffff_ffff_ffff_ffff,
            time_step <= 0xffff_ffff_ffff_ffff,
    ;
    let product: u128 = (frequency as u128) * (time_step as u128);
    (product % (n as u128)) as usize
}

/// The power of `w` that the sample at `position` meets in the forward
/// transform for `frequency`.
pub(crate) fn turn_back(n: usize, frequency: usize, position: usize) -> (phase: usize)
    requires
        n >= 1,
    ensures
        phase == analysis_phase(n as int, frequency as int, position as int),
        phase < n,
{
    let forward = turn(n, frequency, position);
    if forward == 0 {
        assert((n as int) % (n as int) == 0) by (nonlinear_arith)
            requires
                n >= 1,
        ;
        0
    } else {
        proof {
            vstd::arithmetic::div_mod::lemma_small_mod((n - forward) as nat, n as nat);
        }
        n - forward
    }
}

/// Widening a band by one frequency appends that frequency's pair of
/// components to the chain.
pub proof fn lemma_chain_grows(n: int, k_min: int, k_max: int, time_step: int)
    requires
        0 <= k_min <= k_max <= n <= usize::MAX,
    ensures
        epicycle_chain(n, k_min, k_max, time_step) == epicycle_chain(
            n,
            k_min,
            k_max - 1,
            time_step,
        ) + pair_terms(n, k_max, time_step),
{
    let turned = |f: usize| component_of(n, f as int, time_step);
    let shorter = band_indices(n, k_min, k_max - 1);
    let pair = pair_indices(n, k_max);
    assert(band_indices(n, k_min, k_max) == shorter + pair);
    assert((shorter + pair).map_values(turned) =~= shorter.map_values(turned) + pair.map_values(
        turned,
    ));
    assert(pair.map_values(turned) =~= pair_terms(n, k_max, time_step));
}

} // verus!
