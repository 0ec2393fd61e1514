//! What holds of every band, every sample position and every run of playback.
//!
//! The statements about the transform are about its terms: which coefficient
//! meets which power of the root of unity `w`. What the terms add up to is
//! stated in [`crate::inversion`].
use crate::animation::{
    advance, advance_times, decreased_speed, faster, increased_speed, lap_of, point_at, slower,
    three_halves, two_thirds, UNITS_PER_SAMPLE,
};
use crate::terms::{
    analysis_phase, analysis_terms, band_indices, band_len, band_valid, centred_index,
    component_of, epicycle_chain, lemma_chain_grows, max_frequency_of, pair_indices, pair_terms,
    phase_of, signed_frequency, synthesis_terms, Term,
};
use vstd::arithmetic::div_mod::{
    lemma_add_mod_noop, lemma_fundamental_div_mod, lemma_mod_multiples_vanish, lemma_small_mod,
};
use vstd::prelude::*;

verus! {

/// The coefficient index at place `p` of a band that starts at `k_min`. Without
/// frequency 0 the places come in pairs, a frequency and its mirror. With it,
/// the pairs follow the single place of frequency 0.
pub open spec fn band_index_at(n: int, k_min: int, p: int) -> int {
    if k_min == 0 {
        if p == 0 {
            0
        } else if p % 2 == 1 {
            (p + 1) / 2
        } else {
            n - p / 2
        }
    } else {
        if p % 2 == 0 {
            k_min + p / 2
        } else {
            n - (k_min + p / 2)
        }
    }
}

/// A band selects `band_len` coefficients, each of them a coefficient of the
/// transform, and `band_index_at` tells which one stands at each place.
pub proof fn lemma_band_layout(n: int, k_min: int, k_max: int)
    requires
        band_valid(n, k_min, k_max),
        1 <= n <= usize::MAX,
    ensures
        band_indices(n, k_min, k_max).len() == band_len(k_min, k_max),
        forall|p: int|
            0 <= p < band_len(k_min, k_max) ==> {
                &&& (#[trigger] band_indices(n, k_min, k_max)[p]) == band_index_at(n, k_min, p)
                &&& 0 <= band_index_at(n, k_min, p) < n
            },
    decreases k_max - k_min,
{
    if k_min < k_max {
        lemma_band_layout(n, k_min, k_max - 1);
    } else {
        assert(band_indices(n, k_min, k_max - 1) =~= Seq::<usize>::empty());
    }
    let shorter = band_indices(n, k_min, k_max - 1);
    let pair = pair_indices(n, k_max);
    assert(band_indices(n, k_min, k_max) == shorter + pair);
    assert(shorter.len() == band_len(k_min, k_max - 1));
    assert forall|p: int| 0 <= p < band_len(k_min, k_max) implies {
        &&& (#[trigger] band_indices(n, k_min, k_max)[p]) == band_index_at(n, k_min, p)
        &&& 0 <= band_index_at(n, k_min, p) < n
    } by {
        if p >= shorter.len() {
            assert((shorter + pair)[p] == pair[p - shorter.len()]);
            assert(k_max as usize == k_max);
            assert((n - k_max) as usize == n - k_max);
        } else {
            assert((shorter + pair)[p] == shorter[p]);
            assert(shorter[p] == band_indices(n, k_min, k_max - 1)[p]);
        }
    }
}

/// The chain of rotating vectors at a sample position holds exactly the terms
/// of the band-limited reconstruction at that position, in the same order.
pub proof fn lemma_chain_is_reconstruction(n: int, k_min: int, k_max: int, time_step: int)
    requires
        band_valid(n, k_min, k_max),
        n <= usize::MAX,
    ensures
        epicycle_chain(n, k_min, k_max, time_step) == synthesis_terms(n, k_min, k_max, time_step),
    decreases k_max - k_min,
{
    if k_min < k_max {
        lemma_chain_is_reconstruction(n, k_min, k_max - 1, time_step);
    } else {
        assert(epicycle_chain(n, k_min, k_max - 1, time_step) =~= Seq::<Term>::empty());
        assert(synthesis_terms(n, k_min, k_max - 1, time_step) =~= Seq::<Term>::empty());
    }
    lemma_chain_grows(n, k_min, k_max, time_step);
    assert(synthesis_terms(n, k_min, k_max, time_step) == synthesis_terms(
        n,
        k_min,
        k_max - 1,
        time_step,
    ) + pair_terms(n, k_max, time_step));
}

/// The band that holds frequency 0 alone has the single term `c[0] * w^0`,
/// whatever the sample position. In the forward transform for frequency 0
/// every sample meets `w^0`.
pub proof fn lemma_dc_band_is_constant(n: int, time_step: int)
    requires
        n >= 1,
    ensures
        synthesis_terms(n, 0, 0, time_step) == seq![Term { index: 0, phase: 0 }],
        analysis_terms(n, 0) == Seq::new(n as nat, |i: int| Term { index: i as usize, phase: 0 }),
{
    assert(synthesis_terms(n, 0, -1, time_step) =~= Seq::<Term>::empty());
    assert(0 * time_step == 0) by (nonlinear_arith);
    assert(0int % n == 0);
    assert(synthesis_terms(n, 0, 0, time_step) =~= seq![Term { index: 0, phase: 0 }]);
    assert forall|i: int| 0 <= i < n implies analysis_phase(n, 0, i) == 0 by {
        assert(0 * i == 0) by (nonlinear_arith);
        assert(n % n == 0) by (nonlinear_arith)
            requires
                n >= 1,
        ;
    }
    assert(analysis_terms(n, 0) =~= Seq::new(
        n as nat,
        |i: int| Term { index: i as usize, phase: 0 },
    ));
}

/// A frequency and its mirror turn by opposite angles: their powers of `w` add
/// up to a multiple of the size.
pub proof fn lemma_mirror_phases_cancel(n: int, k: int, time_step: int)
    requires
        n >= 1,
    ensures
        (phase_of(n, k, time_step) + phase_of(n, n - k, time_step)) % n == 0,
        analysis_phase(n, n - k, time_step) == phase_of(n, k, time_step),
        analysis_phase(n, k, time_step) == phase_of(n, n - k, time_step),
        (analysis_phase(n, k, time_step) + analysis_phase(n, n - k, time_step)) % n == 0,
{
    let a = k * time_step;
    let b = (n - k) * time_step;
    assert(a + b == n * time_step + 0) by (nonlinear_arith)
        requires
            a == k * time_step,
            b == (n - k) * time_step,
    ;
    lemma_mod_multiples_vanish(time_step, 0, n);
    assert(0int % n == 0);
    assert((a + b) % n == 0);
    lemma_add_mod_noop(a, b, n);
    let pa = a % n;
    let pb = b % n;
    assert((pa + pb) % n == 0);
    assert(0 <= pa < n && 0 <= pb < n);
    if pa + pb == 0 {
        assert(n % n == 0) by (nonlinear_arith)
            requires
                n >= 1,
        ;
    } else {
        assert(pa + pb == n) by {
            lemma_fundamental_div_mod(pa + pb, n);
            let q = (pa + pb) / n;
            assert(pa + pb == n * q);
            assert(n * q == n) by (nonlinear_arith)
                requires
                    0 < pa + pb < 2 * n,
                    pa + pb == n * q,
            ;
        }
        lemma_small_mod((n - pa) as nat, n as nat);
        lemma_small_mod((n - pb) as nat, n as nat);
    }
}

/// The band that holds one frequency `k > 0` alone has, at every sample
/// position, the two terms `c[k] * w^p` and `c[n - k] * w^q` with `p + q` a
/// multiple of the size. In the forward transform, too, the powers of `w` that
/// a sample meets for `k` and for `n - k` add up to a multiple of the size.
pub proof fn lemma_single_band_is_conjugate_pair(n: int, k: int, time_step: int)
    requires
        band_valid(n, k, k),
        0 < k,
    ensures
        synthesis_terms(n, k, k, time_step) == seq![
            component_of(n, k, time_step),
            component_of(n, n - k, time_step),
        ],
        (phase_of(n, k, time_step) + phase_of(n, n - k, time_step)) % n == 0,
        forall|i: int|
            (#[trigger] analysis_phase(n, k, i) + analysis_phase(n, n - k, i)) % n == 0,
{
    assert(synthesis_terms(n, k, k - 1, time_step) =~= Seq::<Term>::empty());
    assert(synthesis_terms(n, k, k, time_step) =~= pair_terms(n, k, time_step));
    lemma_mirror_phases_cancel(n, k, time_step);
    assert forall|i: int|
        (#[trigger] analysis_phase(n, k, i) + analysis_phase(n, n - k, i)) % n == 0 by {
        lemma_mirror_phases_cancel(n, k, i);
    }
}

/// When the size is odd, the widest band selects every coefficient exactly
/// once.
pub proof fn lemma_full_band_is_whole_spectrum(n: int)
    requires
        1 <= n <= usize::MAX,
        n % 2 == 1,
    ensures
        band_indices(n, 0, max_frequency_of(n)).len() == n,
        band_indices(n, 0, max_frequency_of(n)).no_duplicates(),
        forall|j: int|
            0 <= j < n ==> #[trigger] band_indices(n, 0, max_frequency_of(n)).contains(j as usize),
{
    let half = max_frequency_of(n);
    let all = band_indices(n, 0, half);
    lemma_band_layout(n, 0, half);
    assert forall|p: int, q: int| 0 <= p < all.len() && 0 <= q < all.len() && p != q implies all[p]
        != all[q] by {
        assert(all[p] == band_index_at(n, 0, p));
        assert(all[q] == band_index_at(n, 0, q));
    }
    assert forall|j: int| 0 <= j < n implies #[trigger] all.contains(j as usize) by {
        let p = if j == 0 {
            0
        } else if j <= half {
            2 * j - 1
        } else {
            2 * (n - j)
        };
        assert(all[p] == band_index_at(n, 0, p));
        assert(all[p] == j as usize);
    }
}

/// When the size is even, the widest band has one selection more than there are
/// coefficients: the middle frequency is its own mirror and is selected twice,
/// at the last two places.
pub proof fn lemma_even_full_band_repeats_middle(n: int)
    requires
        2 <= n <= usize::MAX,
        n % 2 == 0,
    ensures
        band_indices(n, 0, max_frequency_of(n)).len() == n + 1,
        band_indices(n, 0, max_frequency_of(n))[n - 1] == max_frequency_of(n),
        band_indices(n, 0, max_frequency_of(n))[n] == max_frequency_of(n),
{
    let half = max_frequency_of(n);
    lemma_band_layout(n, 0, half);
    let all = band_indices(n, 0, half);
    assert(all[n - 1] == band_index_at(n, 0, n - 1));
    assert(all[n] == band_index_at(n, 0, n));
}

/// At every place of a centred spectrum stands a coefficient of the transform,
/// and its signed frequency is the place less `(n - 1) / 2`. So the frequencies
/// rise by 1 from place to place, and frequency 0 stands at `(n - 1) / 2`.
pub proof fn lemma_centred_spectrum_rises(n: int, place: int)
    requires
        n >= 1,
        0 <= place < n,
    ensures
        0 <= centred_index(n, place) < n,
        signed_frequency(n, centred_index(n, place)) == place - (n - 1) / 2,
{
    let half = max_frequency_of(n);
    let shifted = place + half + 1;
    if shifted < n {
        lemma_small_mod(shifted as nat, n as nat);
    } else {
        lemma_mod_multiples_vanish(-1, shifted, n);
        lemma_small_mod((shifted - n) as nat, n as nat);
    }
}

/// Playback at a speed that is not negative stays on the curve, and after any
/// number of ticks stands where the whole distance leads, up to whole laps.
pub proof fn lemma_forward_playback(position: int, speed: int, elapsed: int, lap: int, ticks: nat)
    requires
        lap >= 1,
        0 <= position <= lap,
        speed >= 0,
        elapsed >= 0,
    ensures
        0 <= advance_times(position, speed, elapsed, lap, ticks) <= lap,
        advance_times(position, speed, elapsed, lap, ticks) % lap == (position + ticks * (speed
            * elapsed)) % lap,
    decreases ticks,
{
    let stride = speed * elapsed;
    assert(stride >= 0) by (nonlinear_arith)
        requires
            speed >= 0,
            elapsed >= 0,
            stride == speed * elapsed,
    ;
    if ticks == 0 {
        assert(ticks * stride == 0) by (nonlinear_arith)
            requires
                ticks == 0,
        ;
    } else {
        let earlier = (ticks - 1) as nat;
        lemma_forward_playback(position, speed, elapsed, lap, earlier);
        let before = advance_times(position, speed, elapsed, lap, earlier);
        let after = advance(before, speed, elapsed, lap);
        assert(after == advance_times(position, speed, elapsed, lap, ticks));
        let moved = before + stride;
        assert(after % lap == moved % lap) by {
            if moved >= lap {
                vstd::arithmetic::div_mod::lemma_mod_twice(moved, lap);
            }
        }
        assert(ticks * stride == earlier * stride + stride) by (nonlinear_arith)
            requires
                ticks == earlier + 1,
        ;
        lemma_add_mod_noop(before, stride, lap);
        lemma_add_mod_noop(position + earlier * stride, stride, lap);
    }
}

/// Two positions on the curve that differ by whole laps point at the same
/// sample.
pub proof fn lemma_same_point_after_laps(a: int, b: int, n: int)
    requires
        n >= 1,
        0 <= a <= lap_of(n),
        0 <= b <= lap_of(n),
        a % lap_of(n) == b % lap_of(n),
    ensures
        point_at(a, n) == point_at(b, n),
{
    let lap = lap_of(n);
    let unit = UNITS_PER_SAMPLE as int;
    assert(lap >= 1) by (nonlinear_arith)
        requires
            n >= 1,
            lap == n * 1_000_000_000,
    ;
    assert(lap % lap == 0) by (nonlinear_arith)
        requires
            lap >= 1,
    ;
    assert(lap / unit == n) by (nonlinear_arith)
        requires
            lap == n * unit,
            unit == 1_000_000_000,
    ;
    assert((n + n) % n == 0) by (nonlinear_arith)
        requires
            n >= 1,
    ;
    assert((n + 0) % n == 0) by (nonlinear_arith)
        requires
            n >= 1,
    ;
    if a < lap {
        lemma_small_mod(a as nat, lap as nat);
    }
    if b < lap {
        lemma_small_mod(b as nat, lap as nat);
    }
}

/// Playing forward over a distance of whole laps, in ticks of equal length,
/// returns to the sample at which playback stood.
pub proof fn lemma_whole_laps_return(
    position: int,
    speed: int,
    elapsed: int,
    n: int,
    ticks: nat,
    laps: int,
)
    requires
        n >= 1,
        0 <= position <= lap_of(n),
        speed >= 0,
        elapsed >= 0,
        ticks * (speed * elapsed) == laps * lap_of(n),
    ensures
        point_at(advance_times(position, speed, elapsed, lap_of(n), ticks), n) == point_at(
            position,
            n,
        ),
{
    let lap = lap_of(n);
    assert(lap >= 1) by (nonlinear_arith)
        requires
            n >= 1,
            lap == n * 1_000_000_000,
    ;
    lemma_forward_playback(position, speed, elapsed, lap, ticks);
    lemma_mod_multiples_vanish(laps, position, lap);
    assert(lap * laps == laps * lap) by (nonlinear_arith);
    lemma_same_point_after_laps(
        advance_times(position, speed, elapsed, lap, ticks),
        position,
        n,
    );
}

/// Slowing down undoes speeding up: two thirds of the speed that is half as
/// fast again is the speed that was there, with its sign. It holds wherever
/// three halves of the speed are still a speed, which is to say within the
/// range of one.
pub proof fn lemma_decrease_undoes_increase(speed: int)
    requires
        i64::MIN <= three_halves(speed) <= i64::MAX,
    ensures
        decreased_speed(increased_speed(speed)) == speed,
        i64::MIN <= speed <= i64::MAX,
{
}

/// A speed that is made faster does not come nearer to 0, and keeps its sign.
pub proof fn lemma_faster_is_further(speed: int)
    ensures
        speed >= 0 ==> three_halves(speed) >= speed,
        speed <= 0 ==> three_halves(speed) <= speed,
        speed > 0 ==> two_thirds(speed) > 0,
        speed < 0 ==> two_thirds(speed) < 0,
{
}

/// As many times slower as faster gives the speed back: after any number of
/// presses that make the animation half as fast again, as many presses that take
/// two thirds of the speed end at the speed from which the first press
/// started. It holds wherever the fastest speed on the way stays short of the
/// two ends of the range of a speed.
pub proof fn lemma_decreases_undo_increases(speed: int, count: nat)
    requires
        i64::MIN <= speed <= i64::MAX,
        i64::MIN < faster(speed, count) < i64::MAX,
    ensures
        slower(faster(speed, count), count) == speed,
    decreases count,
{
    if count > 0 {
        let fewer = (count - 1) as nat;
        let before = faster(speed, fewer);
        lemma_faster_stays_a_speed(speed, fewer);
        lemma_faster_is_further(before);
        // The last press was not cut short at the end of the range.
        assert(faster(speed, count) == three_halves(before));
        lemma_decrease_undoes_increase(before);
        lemma_slower_from_the_end(faster(speed, count), fewer);
        lemma_decreases_undo_increases(speed, fewer);
    }
}

/// Every speed on the way of making a speed faster is a speed.
proof fn lemma_faster_stays_a_speed(speed: int, count: nat)
    requires
        i64::MIN <= speed <= i64::MAX,
    ensures
        i64::MIN <= faster(speed, count) <= i64::MAX,
        speed >= 0 ==> faster(speed, count) >= 0,
        speed <= 0 ==> faster(speed, count) <= 0,
    decreases count,
{
    if count > 0 {
        lemma_faster_stays_a_speed(speed, (count - 1) as nat);
    }
}

/// Slowing down one more time is the same whether the first press or the last
/// press is counted apart.
proof fn lemma_slower_from_the_end(speed: int, count: nat)
    ensures
        slower(speed, count + 1) == slower(decreased_speed(speed), count),
    decreases count,
{
    assert(slower(speed, count + 1) == decreased_speed(slower(speed, count)));
    if count > 0 {
        let fewer = (count - 1) as nat;
        lemma_slower_from_the_end(speed, fewer);
        assert(slower(speed, count) == slower(speed, fewer + 1));
        assert(slower(decreased_speed(speed), count) == decreased_speed(
            slower(decreased_speed(speed), fewer),
        ));
    } else {
        assert(slower(speed, 0) == speed);
        assert(slower(decreased_speed(speed), 0) == decreased_speed(speed));
    }
}

} // verus!
