//! What the transform is worth in exact arithmetic.
//!
//! The statements hold for every signal of numbers without rounding whose table
//! of roots is one of roots of unity, and in which the size of the signal
//! divides. The numbers of [`crate::residue`] and [`crate::complex7`] are such
//! numbers for the sizes that have a root of unity among them.
use crate::exact::{
    coefficients_of, conjugate_roots, lemma_plus_interchange, lemma_sum_concat, lemma_sum_conj,
    lemma_sum_exchange, lemma_sum_one, lemma_sum_scaled, lemma_sum_single, lemma_sum_split,
    lemma_sum_zeros, lemma_total_concat, lemma_zero_plus, multiple, powers, real_valued,
    reconstruction_of, root_table, roots_of_unity, sum, total, transform, value_of, values_of,
    Exact, Number,
};
use crate::laws::{
    band_index_at, lemma_band_layout, lemma_chain_is_reconstruction, lemma_mirror_phases_cancel,
};
use crate::math::{power_of, value_at};
use crate::terms::{
    analysis_phase, analysis_terms, band_indices, band_valid, component_of, epicycle_chain,
    max_frequency_of, pair_terms, phase_of, synthesis_terms, Term,
};
use vstd::arithmetic::div_mod::{
    lemma_add_mod_noop, lemma_mod_bound, lemma_mod_multiples_vanish, lemma_mul_mod_noop_left,
    lemma_small_mod,
};
use vstd::prelude::*;

verus! {

/// The values that the samples of a signal take in the forward transform for
/// the frequency `k`.
pub open spec fn analysis_values<C: Number>(signal: Seq<C>, w: Seq<C>, k: int) -> Seq<C> {
    Seq::new(
        signal.len(),
        |t: int| signal[t].times(w[analysis_phase(signal.len() as int, k, t)]),
    )
}

/// Every coefficient turned to the sample position `i`: the entry at `f` is
/// `c[f] * w^(f * i)`.
pub open spec fn turned<C: Number>(c: Seq<C>, w: Seq<C>, i: int) -> Seq<C> {
    Seq::new(c.len(), |f: int| c[f].times(w[phase_of(c.len() as int, f, i)]))
}

/// What the sample at `t` adds to the coefficient at `f` once that coefficient
/// is turned to the position `i`.
pub open spec fn share<C: Number>(signal: Seq<C>, w: Seq<C>, i: int, f: int, t: int) -> C {
    signal[t].times(w[((i - t) * f) % (signal.len() as int)])
}

/// The forward phase of a sample and the backward phase of a position add up
/// to the phase of their distance.
proof fn lemma_phase_difference(n: int, f: int, i: int, t: int)
    requires
        n >= 1,
    ensures
        0 <= analysis_phase(n, f, t) < n,
        0 <= phase_of(n, f, i) < n,
        (analysis_phase(n, f, t) + phase_of(n, f, i)) % n == ((i - t) * f) % n,
{
    let x = f * t;
    let y = f * i;
    lemma_mod_bound(x, n);
    lemma_mod_bound(y, n);
    lemma_mod_bound(n - x % n, n);
    // The forward phase is the residue of -x.
    let q = x / n;
    vstd::arithmetic::div_mod::lemma_fundamental_div_mod(x, n);
    assert(n - x % n == n * (q + 1) + (-x)) by (nonlinear_arith)
        requires
            x == n * q + x % n,
    ;
    lemma_mod_multiples_vanish(q + 1, -x, n);
    assert(analysis_phase(n, f, t) == (-x) % n);
    lemma_add_mod_noop(-x, y, n);
    assert(-x + y == (i - t) * f) by (nonlinear_arith)
        requires
            x == f * t,
            y == f * i,
    ;
}

/// A coefficient before the division is the sum of its analysis values.
proof fn lemma_coefficient<C: Exact>(signal: Seq<C>, w: Seq<C>, k: int)
    requires
        1 <= signal.len() <= usize::MAX,
        0 <= k < signal.len(),
    ensures
        transform(signal, w)[k] == sum(analysis_values(signal, w, k)),
{
    let n = signal.len() as int;
    let terms = analysis_terms(n, k);
    assert forall|t: int| 0 <= t < n implies values_of(terms, signal, w)[t] == analysis_values(
        signal,
        w,
        k,
    )[t] by {
        lemma_mod_bound(n - phase_of(n, k, t), n);
        assert(terms[t] == Term { index: t as usize, phase: analysis_phase(n, k, t) as usize });
    }
    assert(values_of(terms, signal, w) =~= analysis_values(signal, w, k));
}

/// A coefficient turned to the position `i` is the sum of the shares of the
/// samples.
proof fn lemma_turned_entry<C: Exact>(signal: Seq<C>, w: Seq<C>, i: int, f: int)
    requires
        roots_of_unity(w),
        1 <= signal.len() <= usize::MAX,
        signal.len() == w.len(),
        0 <= f < signal.len(),
    ensures
        turned(transform(signal, w), w, i)[f] == sum(
            Seq::new(signal.len(), |t: int| share(signal, w, i, f, t)),
        ),
{
    let n = signal.len() as int;
    let c = transform(signal, w);
    let values = analysis_values(signal, w, f);
    let turn = w[phase_of(n, f, i)];
    lemma_coefficient(signal, w, f);
    lemma_phase_difference(n, f, i, 0);
    C::times_commutes(sum(values), turn);
    lemma_sum_scaled(turn, values);
    let scaled = Seq::new(values.len(), |t: int| turn.times(values[t]));
    let shares = Seq::new(signal.len(), |t: int| share(signal, w, i, f, t));
    assert forall|t: int| 0 <= t < n implies scaled[t] == shares[t] by {
        lemma_phase_difference(n, f, i, t);
        let back = w[analysis_phase(n, f, t)];
        C::times_commutes(turn, signal[t].times(back));
        C::times_associates(signal[t], back, turn);
        assert(back.times(turn) == w[(analysis_phase(n, f, t) + phase_of(n, f, i)) % n]);
    }
    assert(scaled =~= shares);
}

/// The shares of one sample over all coefficients add up to the sample added
/// to itself `n` times for the sample at the position itself, and to 0 for
/// every other sample.
proof fn lemma_shares_of_a_sample<C: Exact>(signal: Seq<C>, w: Seq<C>, i: int, t: int)
    requires
        roots_of_unity(w),
        signal.len() == w.len(),
        0 <= i < signal.len(),
        0 <= t < signal.len(),
    ensures
        sum(Seq::new(signal.len(), |f: int| share(signal, w, i, f, t))) == if t == i {
            multiple(signal.len(), signal[i])
        } else {
            C::zero()
        },
{
    let n = signal.len() as int;
    let column = Seq::new(signal.len(), |f: int| share(signal, w, i, f, t));
    let j = (i - t) % n;
    lemma_mod_bound(i - t, n);
    let turns = powers(w, j);
    assert forall|f: int| 0 <= f < n implies column[f] == signal[t].times(turns[f]) by {
        lemma_mul_mod_noop_left(i - t, f, n);
    }
    assert(column =~= Seq::new(turns.len(), |f: int| signal[t].times(turns[f])));
    lemma_sum_scaled(signal[t], turns);
    if t == i {
        assert(j == 0);
        let ones = Seq::new(signal.len(), |f: int| C::one());
        assert forall|f: int| 0 <= f < n implies turns[f] == C::one() by {
            assert(0 * f == 0) by (nonlinear_arith);
            assert(0int % n == 0);
        }
        assert(turns =~= ones);
        lemma_sum_scaled(signal[i], ones);
        assert forall|f: int| 0 <= f < n implies signal[i].times(#[trigger] ones[f])
            == signal[i] by {
            C::times_one(signal[i]);
        }
        assert(Seq::new(ones.len(), |f: int| signal[i].times(ones[f])) =~= Seq::new(
            signal.len(),
            |k: int| signal[i],
        ));
    } else {
        if i > t {
            lemma_small_mod((i - t) as nat, n as nat);
        } else {
            lemma_mod_multiples_vanish(1, i - t, n);
            lemma_small_mod((n + (i - t)) as nat, n as nat);
        }
        assert(0 < j < n);
        assert(sum(powers(w, j)) == C::zero());
        C::times_zero(signal[t]);
    }
}

/// All coefficients, each turned to the position `i`, add up to the sample at
/// `i` added to itself `n` times.
proof fn lemma_whole_spectrum_inverts<C: Exact>(signal: Seq<C>, w: Seq<C>, i: int)
    requires
        roots_of_unity(w),
        1 <= signal.len() <= usize::MAX,
        signal.len() == w.len(),
        0 <= i < signal.len(),
    ensures
        sum(turned(transform(signal, w), w, i)) == multiple(signal.len(), signal[i]),
{
    let n = signal.len();
    let all = turned(transform(signal, w), w, i);
    let f = |f: int, t: int| share(signal, w, i, f, t);
    let by_coefficient = Seq::new(n, |a: int| sum(Seq::new(n, |b: int| f(a, b))));
    let by_sample = Seq::new(n, |b: int| sum(Seq::new(n, |a: int| f(a, b))));
    assert forall|a: int| 0 <= a < n implies all[a] == by_coefficient[a] by {
        lemma_turned_entry(signal, w, i, a);
        assert(Seq::new(n, |b: int| f(a, b)) =~= Seq::new(
            signal.len(),
            |t: int| share(signal, w, i, a, t),
        ));
    }
    assert(all =~= by_coefficient);
    lemma_sum_exchange(f, n, n);
    assert forall|b: int| 0 <= b < n && b != i implies by_sample[b] == C::zero() by {
        lemma_shares_of_a_sample(signal, w, i, b);
        assert(Seq::new(n, |a: int| f(a, b)) =~= Seq::new(
            signal.len(),
            |a: int| share(signal, w, i, a, b),
        ));
    }
    assert(by_sample[i] == multiple(n, signal[i])) by {
        lemma_shares_of_a_sample(signal, w, i, i);
        assert(Seq::new(n, |a: int| f(a, i)) =~= Seq::new(
            signal.len(),
            |a: int| share(signal, w, i, a, i),
        ));
    }
    lemma_sum_single(by_sample, i);
}

/// The value of what one frequency adds to a sample: its own turned
/// coefficient and, unless the frequency is 0, that of its mirror.
proof fn lemma_pair_total<C: Exact>(c: Seq<C>, w: Seq<C>, k: int, i: int)
    requires
        1 <= c.len() <= usize::MAX,
        0 <= k < c.len(),
    ensures
        total(pair_terms(c.len() as int, k, i), c, w) == if k == 0 {
            turned(c, w, i)[0]
        } else {
            turned(c, w, i)[k].plus(turned(c, w, i)[c.len() - k])
        },
{
    let n = c.len() as int;
    let all = turned(c, w, i);
    lemma_mod_bound(k * i, n);
    lemma_mod_bound((n - k) * i, n);
    let own = component_of(n, k, i);
    assert(value_of(own, c, w) == all[k]);
    if k == 0 {
        assert(values_of(pair_terms(n, k, i), c, w) =~= seq![all[0]]);
        lemma_sum_one(all[0]);
    } else {
        let mirror = component_of(n, n - k, i);
        assert(value_of(mirror, c, w) == all[n - k]);
        assert(values_of(pair_terms(n, k, i), c, w) =~= seq![all[k]] + seq![all[n - k]]);
        lemma_sum_concat(seq![all[k]], seq![all[n - k]]);
        lemma_sum_one(all[k]);
        lemma_sum_one(all[n - k]);
    }
}

/// The value of the band from 0 to `k`: the turned coefficients from 0 to `k`
/// and those of the last `k` places.
proof fn lemma_low_band_total<C: Exact>(c: Seq<C>, w: Seq<C>, k: int, i: int)
    requires
        1 <= c.len() <= usize::MAX,
        band_valid(c.len() as int, 0, k),
    ensures
        total(synthesis_terms(c.len() as int, 0, k, i), c, w) == sum(
            turned(c, w, i).take(k + 1),
        ).plus(sum(turned(c, w, i).skip(c.len() - k))),
    decreases k,
{
    let n = c.len() as int;
    let all = turned(c, w, i);
    let narrower = synthesis_terms(n, 0, k - 1, i);
    assert(synthesis_terms(n, 0, k, i) == narrower + pair_terms(n, k, i));
    lemma_total_concat(narrower, pair_terms(n, k, i), c, w);
    lemma_pair_total(c, w, k, i);
    if k == 0 {
        assert(narrower =~= Seq::<Term>::empty());
        assert(values_of(narrower, c, w) =~= Seq::<C>::empty());
        assert(all.take(1) =~= seq![all[0]]);
        assert(all.skip(n) =~= Seq::<C>::empty());
        lemma_sum_one(all[0]);
        lemma_zero_plus(all[0]);
        C::plus_zero(all[0]);
    } else {
        lemma_low_band_total(c, w, k - 1, i);
        let head = sum(all.take(k));
        let tail = sum(all.skip(n - k + 1));
        assert(all.take(k + 1).drop_last() =~= all.take(k));
        assert(sum(all.take(k + 1)) == head.plus(all[k]));
        assert(all.skip(n - k) =~= seq![all[n - k]] + all.skip(n - k + 1));
        lemma_sum_concat(seq![all[n - k]], all.skip(n - k + 1));
        lemma_sum_one(all[n - k]);
        // (head + tail) + (own + mirror) == (head + own) + (mirror + tail)
        lemma_plus_interchange(head, tail, all[k], all[n - k]);
        C::plus_commutes(tail, all[n - k]);
    }
}

/// The widest band gives every sample back, added to itself `n` times. When
/// the size is even, the coefficient of the middle frequency comes on top of
/// that once more, turned to the sample position.
proof fn lemma_full_band_total<C: Exact>(signal: Seq<C>, w: Seq<C>, i: int)
    requires
        roots_of_unity(w),
        1 <= signal.len() <= usize::MAX,
        signal.len() == w.len(),
        0 <= i < signal.len(),
    ensures
        total(
            synthesis_terms(signal.len() as int, 0, max_frequency_of(signal.len() as int), i),
            transform(signal, w),
            w,
        ) == if signal.len() % 2 == 1 {
            multiple(signal.len(), signal[i])
        } else {
            multiple(signal.len(), signal[i]).plus(
                turned(transform(signal, w), w, i)[max_frequency_of(signal.len() as int)],
            )
        },
{
    let n = signal.len() as int;
    let half = max_frequency_of(n);
    let c = transform(signal, w);
    let all = turned(c, w, i);
    lemma_low_band_total(c, w, half, i);
    lemma_whole_spectrum_inverts(signal, w, i);
    if n % 2 == 1 {
        assert(n - half == half + 1);
        lemma_sum_split(all, half + 1);
    } else {
        assert(n - half == half);
        lemma_sum_split(all, half);
        assert(all.take(half + 1).drop_last() =~= all.take(half));
        assert(sum(all.take(half + 1)) == sum(all.take(half)).plus(all[half]));
        C::plus_associates(sum(all.take(half)), all[half], sum(all.skip(half)));
        C::plus_commutes(all[half], sum(all.skip(half)));
        C::plus_associates(sum(all.take(half)), sum(all.skip(half)), all[half]);
    }
}

/// The band that holds frequency 0 alone gives, at every sample position, the
/// sum of the signal: before the division by the size, its mean.
proof fn lemma_dc_band_total<C: Exact>(signal: Seq<C>, w: Seq<C>, i: int)
    requires
        roots_of_unity(w),
        1 <= signal.len() <= usize::MAX,
        signal.len() == w.len(),
    ensures
        total(synthesis_terms(signal.len() as int, 0, 0, i), transform(signal, w), w) == sum(
            signal,
        ),
{
    let n = signal.len() as int;
    let c = transform(signal, w);
    let all = turned(c, w, i);
    lemma_low_band_total(c, w, 0, i);
    assert(all.take(1) =~= seq![all[0]]);
    assert(all.skip(n) =~= Seq::<C>::empty());
    lemma_sum_one(all[0]);
    C::plus_zero(all[0]);
    assert(0 * i == 0) by (nonlinear_arith);
    assert(0int % n == 0);
    C::times_one(c[0]);
    lemma_coefficient(signal, w, 0);
    assert forall|t: int| 0 <= t < n implies analysis_values(signal, w, 0)[t] == signal[t] by {
        assert(0 * t == 0) by (nonlinear_arith);
        assert(n % n == 0) by (nonlinear_arith)
            requires
                n >= 1,
        ;
        C::times_one(signal[t]);
    }
    assert(analysis_values(signal, w, 0) =~= signal);
}

/// The coefficients of a real signal at a frequency and at its mirror are
/// conjugates.
proof fn lemma_mirror_sums_are_conjugates<C: Exact>(signal: Seq<C>, w: Seq<C>, k: int)
    requires
        conjugate_roots(w),
        real_valued(signal),
        1 <= signal.len() <= usize::MAX,
        signal.len() == w.len(),
        0 < k < signal.len(),
    ensures
        transform(signal, w)[k].conj() == transform(signal, w)[signal.len() - k],
{
    let n = signal.len() as int;
    let own = analysis_values(signal, w, k);
    let mirror = analysis_values(signal, w, n - k);
    lemma_coefficient(signal, w, k);
    lemma_coefficient(signal, w, n - k);
    lemma_sum_conj(own);
    assert forall|t: int| 0 <= t < n implies (#[trigger] own[t]).conj() == mirror[t] by {
        let a = analysis_phase(n, k, t);
        lemma_mod_bound(n - phase_of(n, k, t), n);
        C::conj_times(signal[t], w[a]);
        // The opposite place of the forward phase of `k` is the forward phase of `n - k`.
        lemma_mirror_phases_cancel(n, k, t);
        lemma_mod_bound(k * t, n);
        lemma_mod_bound((n - k) * t, n);
        let p = phase_of(n, k, t);
        let q = phase_of(n, n - k, t);
        assert(a == q);
        assert((n - q) % n == analysis_phase(n, n - k, t));
        assert(analysis_phase(n, n - k, t) == p);
    }
    assert(Seq::new(own.len(), |t: int| own[t].conj()) =~= mirror);
}

/// The band that holds one frequency alone gives, for a real signal, a value
/// that is its own conjugate at every sample position: a real number.
proof fn lemma_single_band_total_is_real<C: Exact>(signal: Seq<C>, w: Seq<C>, k: int, i: int)
    requires
        conjugate_roots(w),
        real_valued(signal),
        1 <= signal.len() <= usize::MAX,
        signal.len() == w.len(),
        band_valid(signal.len() as int, k, k),
        0 < k,
    ensures
        total(synthesis_terms(signal.len() as int, k, k, i), transform(signal, w), w).conj()
            == total(synthesis_terms(signal.len() as int, k, k, i), transform(signal, w), w),
{
    let n = signal.len() as int;
    let c = transform(signal, w);
    let all = turned(c, w, i);
    assert(synthesis_terms(n, k, k - 1, i) =~= Seq::<Term>::empty());
    assert(synthesis_terms(n, k, k, i) =~= pair_terms(n, k, i));
    lemma_pair_total(c, w, k, i);
    let own = all[k];
    let mirror = all[n - k];
    // Each of the two values is the conjugate of the other.
    lemma_mirror_sums_are_conjugates(signal, w, k);
    lemma_mirror_sums_are_conjugates(signal, w, n - k);
    lemma_mirror_phases_cancel(n, k, i);
    lemma_mod_bound(k * i, n);
    lemma_mod_bound((n - k) * i, n);
    let p = phase_of(n, k, i);
    let q = phase_of(n, n - k, i);
    assert((n - p) % n == q && (n - q) % n == p) by {
        assert(analysis_phase(n, k, i) == q);
        assert(analysis_phase(n, n - k, i) == p);
    }
    C::conj_times(c[k], w[p]);
    C::conj_times(c[n - k], w[q]);
    assert(own.conj() == mirror);
    assert(mirror.conj() == own);
    C::conj_plus(own, mirror);
    C::plus_commutes(mirror, own);
}

/// The count `n` divides: dividing by it undoes adding a number to itself `n`
/// times, and goes through sums, products and conjugates.
pub open spec fn divides_by<C: Number>(n: usize) -> bool {
    &&& forall|a: C, b: C| #[trigger] a.plus(b).over(n) == a.over(n).plus(b.over(n))
    &&& forall|a: C, b: C| #[trigger] a.times(b).over(n) == a.over(n).times(b)
    &&& forall|a: C| #[trigger] a.conj().over(n) == a.over(n).conj()
    &&& forall|x: C| (#[trigger] multiple(n as nat, x)).over(n) == x
}

/// The sum of the quotients is the quotient of the sum.
proof fn lemma_sum_over<C: Exact>(values: Seq<C>, n: usize)
    requires
        divides_by::<C>(n),
    ensures
        sum(Seq::new(values.len(), |k: int| values[k].over(n))) == sum(values).over(n),
    decreases values.len(),
{
    let quotients = Seq::new(values.len(), |k: int| values[k].over(n));
    if values.len() == 0 {
        let zeros = Seq::new(n as nat, |k: int| C::zero());
        lemma_sum_zeros(zeros);
        assert(multiple(n as nat, C::zero()).over(n) == C::zero());
    } else {
        let shorter = Seq::new(values.drop_last().len(), |k: int| values.drop_last()[k].over(n));
        assert(quotients.drop_last() =~= shorter);
        lemma_sum_over(values.drop_last(), n);
        assert(sum(values.drop_last()).plus(values.last()).over(n) == sum(
            values.drop_last(),
        ).over(n).plus(values.last().over(n)));
    }
}

/// The coefficients are the sums of the forward transform, divided by the
/// size. So the value of a sequence of terms over the coefficients is its
/// value over those sums, divided by the size.
proof fn lemma_total_over<C: Exact>(terms: Seq<Term>, signal: Seq<C>)
    requires
        divides_by::<C>(signal.len() as usize),
        1 <= signal.len() <= usize::MAX,
        forall|p: int| 0 <= p < terms.len() ==> (#[trigger] terms[p]).index < signal.len(),
    ensures
        total(terms, coefficients_of(signal), root_table(signal.len())) == total(
            terms,
            transform(signal, root_table(signal.len())),
            root_table(signal.len()),
        ).over(signal.len() as usize),
{
    let n = signal.len() as usize;
    let w = root_table::<C>(signal.len());
    let sums = transform(signal, w);
    let whole = values_of(terms, sums, w);
    assert forall|p: int| 0 <= p < terms.len() implies values_of(
        terms,
        coefficients_of(signal),
        w,
    )[p] == whole[p].over(n) by {
        let term = terms[p];
        assert(coefficients_of(signal)[term.index as int] == sums[term.index as int].over(n));
        let sum_of_term = sums[term.index as int];
        let root_of_term = w[term.phase as int];
        assert(sum_of_term.times(root_of_term).over(n) == sum_of_term.over(n).times(root_of_term));
    }
    assert(values_of(terms, coefficients_of(signal), w) =~= Seq::new(
        whole.len(),
        |p: int| whole[p].over(n),
    ));
    lemma_sum_over(whole, n);
}

/// Every term of the reconstruction from a band names a coefficient.
proof fn lemma_synthesis_in_bounds(n: int, k_min: int, k_max: int, i: int)
    requires
        band_valid(n, k_min, k_max),
        1 <= n <= usize::MAX,
    ensures
        forall|p: int|
            0 <= p < synthesis_terms(n, k_min, k_max, i).len() ==> (#[trigger] synthesis_terms(
                n,
                k_min,
                k_max,
                i,
            )[p]).index < n,
{
    lemma_chain_is_reconstruction(n, k_min, k_max, i);
    lemma_band_layout(n, k_min, k_max);
    let chain = epicycle_chain(n, k_min, k_max, i);
    let selected = band_indices(n, k_min, k_max);
    assert forall|p: int| 0 <= p < chain.len() implies (#[trigger] chain[p]).index < n by {
        assert(selected[p] == band_index_at(n, k_min, p));
        assert(chain[p] == component_of(n, selected[p] as int, i));
    }
}

/// The widest band of a signal of odd size gives the signal back: every sample
/// of the reconstruction is the sample of the signal.
pub proof fn lemma_full_band_gives_the_signal_back<C: Exact>(signal: Seq<C>, i: int)
    requires
        roots_of_unity(root_table::<C>(signal.len())),
        divides_by::<C>(signal.len() as usize),
        1 <= signal.len() <= usize::MAX,
        signal.len() % 2 == 1,
        0 <= i < signal.len(),
    ensures
        reconstruction_of(signal, 0, max_frequency_of(signal.len() as int))[i] == signal[i],
{
    let n = signal.len() as int;
    let terms = synthesis_terms(n, 0, max_frequency_of(n), i);
    lemma_synthesis_in_bounds(n, 0, max_frequency_of(n), i);
    lemma_total_over(terms, signal);
    lemma_full_band_total(signal, root_table::<C>(signal.len()), i);
}

/// The widest band of a signal of even size counts the middle frequency, which
/// is its own mirror, twice: every sample of the reconstruction is the sample
/// of the signal plus the value of the middle frequency at that sample.
pub proof fn lemma_full_band_of_even_size<C: Exact>(signal: Seq<C>, i: int)
    requires
        roots_of_unity(root_table::<C>(signal.len())),
        divides_by::<C>(signal.len() as usize),
        2 <= signal.len() <= usize::MAX,
        signal.len() % 2 == 0,
        0 <= i < signal.len(),
    ensures
        reconstruction_of(signal, 0, max_frequency_of(signal.len() as int))[i] == signal[i].plus(
            value_at(signal, max_frequency_of(signal.len() as int), i),
        ),
{
    let n = signal.len() as int;
    let half = max_frequency_of(n);
    let w = root_table::<C>(signal.len());
    let sums = transform(signal, w);
    let terms = synthesis_terms(n, 0, half, i);
    lemma_synthesis_in_bounds(n, 0, half, i);
    lemma_total_over(terms, signal);
    lemma_full_band_total(signal, w, i);
    lemma_mod_bound(half * i, n);
    let extra = sums[half].times(w[phase_of(n, half, i)]);
    assert(turned(sums, w, i)[half] == extra);
    assert(multiple(signal.len(), signal[i]).plus(extra).over(n as usize) == multiple(
        signal.len(),
        signal[i],
    ).over(n as usize).plus(extra.over(n as usize)));
    assert(extra.over(n as usize) == sums[half].over(n as usize).times(w[phase_of(n, half, i)]));
    assert(coefficients_of(signal)[half] == sums[half].over(n as usize));
}

/// The band that holds frequency 0 alone gives the mean of the signal at every
/// sample.
pub proof fn lemma_dc_band_is_the_mean<C: Exact>(signal: Seq<C>, i: int)
    requires
        roots_of_unity(root_table::<C>(signal.len())),
        divides_by::<C>(signal.len() as usize),
        1 <= signal.len() <= usize::MAX,
        0 <= i < signal.len(),
    ensures
        reconstruction_of(signal, 0, 0)[i] == sum(signal).over(signal.len() as usize),
{
    let n = signal.len() as int;
    lemma_synthesis_in_bounds(n, 0, 0, i);
    lemma_total_over(synthesis_terms(n, 0, 0, i), signal);
    lemma_dc_band_total(signal, root_table::<C>(signal.len()), i);
}

/// The coefficients of a real signal at a frequency and at its mirror are
/// conjugates.
pub proof fn lemma_mirror_coefficients_are_conjugates<C: Exact>(signal: Seq<C>, k: int)
    requires
        conjugate_roots(root_table::<C>(signal.len())),
        divides_by::<C>(signal.len() as usize),
        real_valued(signal),
        1 <= signal.len() <= usize::MAX,
        0 < k < signal.len(),
    ensures
        coefficients_of(signal)[k].conj() == coefficients_of(signal)[signal.len() - k],
{
    lemma_mirror_sums_are_conjugates(signal, root_table::<C>(signal.len()), k);
}

/// The band that holds one frequency alone gives, for a real signal, a real
/// number at every sample: a value that is its own conjugate.
pub proof fn lemma_single_band_is_real<C: Exact>(signal: Seq<C>, k: int, i: int)
    requires
        conjugate_roots(root_table::<C>(signal.len())),
        divides_by::<C>(signal.len() as usize),
        real_valued(signal),
        1 <= signal.len() <= usize::MAX,
        band_valid(signal.len() as int, k, k),
        0 < k,
        0 <= i < signal.len(),
    ensures
        reconstruction_of(signal, k, k)[i].conj() == reconstruction_of(signal, k, k)[i],
{
    let n = signal.len() as int;
    let terms = synthesis_terms(n, k, k, i);
    lemma_synthesis_in_bounds(n, k, k, i);
    lemma_total_over(terms, signal);
    lemma_single_band_total_is_real(signal, root_table::<C>(signal.len()), k, i);
}

/// The power of a coefficient is a real number: it is its own conjugate.
pub proof fn lemma_power_is_real<C: Exact>(c: C)
    ensures
        power_of(c).conj() == power_of(c),
{
    C::conj_times(c, c.conj());
    C::conj_conj(c);
    C::times_commutes(c.conj(), c);
}

} // verus!
