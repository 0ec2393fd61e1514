//! Playback of a closed curve as a chain of rotating vectors.
//!
//! A [`Fourier`] animation owns the analysed curve, a band of frequencies and a
//! playback position that advances with time. On every tick it says which
//! sample playback has reached, how much of the reconstruction is drawn and
//! which vectors form the chain. Drawing is left to the caller.
//!
//! Time and position are whole numbers, so that playback is exact. Time is
//! counted in microseconds. A position is counted in billionths of a sample
//! ([`UNITS_PER_SAMPLE`]), and a speed in such units per microsecond, which is
//! thousandths of a sample per second.
use crate::exact::{
    coefficients_of, lemma_total_push, reconstruction_of, root_table, total, Arithmetic, Number,
};
use crate::laws::lemma_chain_is_reconstruction;
use crate::math;
use crate::math::{band_error, FourierError};
use crate::terms::{
    band_valid, component_of, epicycle_chain, lemma_chain_grows, pair_terms, turn, Term,
};
use vstd::prelude::*;

verus! {

/// The number of position units in one sample.
pub const UNITS_PER_SAMPLE: u64 = 1_000_000_000;

/// The speed at which an animation starts: 50 samples per second.
pub const DEFAULT_SPEED: i64 = 50_000;

/// Where playback stands.
#[derive(Clone, Copy, Debug, PartialEq, Eq, Structural)]
pub enum PlaybackState {
    /// At rest at position 0. Only `start` leaves this state.
    Stopped,
    /// Held at the position that was reached.
    Paused,
    /// Advancing with every tick.
    Playing,
}

/// One vector of the chain: it belongs to the coefficient at `index` and ends
/// at `tip`. It starts where the vector before it ends, and the first one
/// starts at 0.
#[derive(Debug, PartialEq, Eq)]
pub struct Epicycle<C> {
    pub index: usize,
    pub tip: C,
}

/// What there is to draw after a tick.
#[derive(Debug, PartialEq, Eq)]
pub struct Frame<C> {
    /// The sample that playback has reached.
    pub current_point: usize,
    /// How many samples of the reconstruction are drawn, counted from the
    /// first: those up to and including `current_point`.
    pub reconstructed: usize,
    /// The chain of rotating vectors. It ends at the reconstruction at
    /// `current_point`.
    pub epicycles: Vec<Epicycle<C>>,
}

/// The outcome of a tick.
#[derive(Debug, PartialEq, Eq)]
pub enum Tick<C> {
    /// Playback is not running: nothing moved and nothing is drawn.
    Idle,
    /// Playback moved on, but the band does not fit the curve. Nothing is
    /// drawn for this tick.
    Skipped(FourierError),
    /// Playback moved on and this is drawn.
    Frame(Frame<C>),
}

/// What `play_pause_animation` did.
#[derive(Clone, Copy, Debug, PartialEq, Eq, Structural)]
pub enum PlayPause {
    /// There is no animation, or it is stopped: the caller builds a new one.
    Restart,
    /// A paused animation plays again.
    Resumed,
    /// A playing animation went back to the default speed.
    SpeedReset,
    /// A playing animation at the default speed was paused.
    Paused,
}

/// The length of one lap over `n` samples, in position units.
pub open spec fn lap_of(n: int) -> int {
    n * 1_000_000_000
}

/// The position after moving for `elapsed` at `speed`. A position that falls
/// below 0 is put at the end of the lap. One that reaches the end of the lap or
/// goes past it is reduced by whole laps.
pub open spec fn advance(position: int, speed: int, elapsed: int, lap: int) -> int {
    let moved = position + speed * elapsed;
    if moved < 0 {
        lap
    } else if moved >= lap {
        moved % lap
    } else {
        moved
    }
}

/// The position after `ticks` moves of `elapsed` each at `speed`.
pub open spec fn advance_times(position: int, speed: int, elapsed: int, lap: int, ticks: nat) -> int
    decreases ticks,
{
    if ticks == 0 {
        position
    } else {
        advance(
            advance_times(position, speed, elapsed, lap, (ticks - 1) as nat),
            speed,
            elapsed,
            lap,
        )
    }
}

/// The sample that a position points at: its whole part, wrapped into the
/// `n` samples.
pub open spec fn point_at(position: int, n: int) -> int {
    (n + position / 1_000_000_000) % n
}

/// A number kept within the range of a speed.
pub open spec fn within_speeds(exact: int) -> int {
    if exact > i64::MAX {
        i64::MAX as int
    } else if exact < i64::MIN {
        i64::MIN as int
    } else {
        exact
    }
}

/// Three halves of a speed, rounded to the nearest whole number, a half away
/// from 0.
pub open spec fn three_halves(speed: int) -> int {
    if speed >= 0 {
        (6 * speed + 2) / 4
    } else {
        -((-6 * speed + 2) / 4)
    }
}

/// Two thirds of a speed, rounded to the nearest whole number.
pub open spec fn two_thirds(speed: int) -> int {
    if speed >= 0 {
        (4 * speed + 3) / 6
    } else {
        -((-4 * speed + 3) / 6)
    }
}

/// The speed that is half as fast again, kept within the range of a speed.
pub open spec fn increased_speed(speed: int) -> int {
    within_speeds(three_halves(speed))
}

/// Two thirds of the speed.
pub open spec fn decreased_speed(speed: int) -> int {
    within_speeds(two_thirds(speed))
}

/// The speed after `count` times half as fast again.
pub open spec fn faster(speed: int, count: nat) -> int
    decreases count,
{
    if count == 0 {
        speed
    } else {
        increased_speed(faster(speed, (count - 1) as nat))
    }
}

/// The speed after `count` times two thirds of the speed.
pub open spec fn slower(speed: int, count: nat) -> int
    decreases count,
{
    if count == 0 {
        speed
    } else {
        decreased_speed(slower(speed, (count - 1) as nat))
    }
}

/// The vector at `place` of the chain over the terms `terms`: it ends at the
/// value of the terms up to and including its own.
pub open spec fn epicycle_at<C: Number>(
    terms: Seq<Term>,
    input: Seq<C>,
    w: Seq<C>,
    place: int,
) -> Epicycle<C> {
    Epicycle { index: terms[place].index, tip: total(terms.take(place + 1), input, w) }
}

/// The chain of rotating vectors of a curve at the sample `point`: one vector
/// for each term of `epicycle_chain`, laid tip to tail from 0.
pub open spec fn chain_of<C: Number>(signal: Seq<C>, k_min: int, k_max: int, point: int) -> Seq<
    Epicycle<C>,
> {
    let terms = epicycle_chain(signal.len() as int, k_min, k_max, point);
    Seq::new(
        terms.len(),
        |place: int| epicycle_at(terms, coefficients_of(signal), root_table(signal.len()), place),
    )
}

/// The reconstruction that an animation draws: that of its band where the band
/// fits the curve, and nothing where it does not.
pub open spec fn drawn_reconstruction<C: Number>(signal: Seq<C>, band: (usize, usize)) -> Seq<C> {
    if band_valid(signal.len() as int, band.0 as int, band.1 as int) {
        reconstruction_of(signal, band.0 as int, band.1 as int)
    } else {
        Seq::empty()
    }
}

/// What a tick reports. When playback is not running, that it is idle. When
/// the band does not fit the curve, the band. Otherwise the frame at `point`:
/// the samples of the reconstruction up to and including `point`, and the
/// chain of rotating vectors at `point`.
pub open spec fn tick_shows<C: Number>(
    tick: Tick<C>,
    playing: bool,
    signal: Seq<C>,
    band: (usize, usize),
    point: int,
) -> bool {
    if !playing {
        tick is Idle
    } else if !band_valid(signal.len() as int, band.0 as int, band.1 as int) {
        tick == Tick::<C>::Skipped(band_error(signal.len() as int, band.0, band.1))
    } else {
        &&& tick matches Tick::Frame(frame)
        &&& frame.current_point == point
        &&& frame.reconstructed == point + 1
        &&& frame.epicycles@ == chain_of(signal, band.0 as int, band.1 as int, point)
    }
}

/// The chain over a narrower band is the beginning of the chain over a wider
/// one.
proof fn lemma_chain_begins(n: int, k_min: int, k: int, k_max: int, point: int)
    requires
        0 <= k_min,
        k_min - 1 <= k <= k_max <= n <= usize::MAX,
    ensures
        epicycle_chain(n, k_min, k, point).len() <= epicycle_chain(n, k_min, k_max, point).len(),
        epicycle_chain(n, k_min, k, point) == epicycle_chain(n, k_min, k_max, point).take(
            epicycle_chain(n, k_min, k, point).len() as int,
        ),
    decreases k_max - k,
{
    let narrow = epicycle_chain(n, k_min, k, point);
    let wide = epicycle_chain(n, k_min, k_max, point);
    if k == k_max {
        assert(wide.take(wide.len() as int) =~= wide);
    } else {
        lemma_chain_begins(n, k_min, k, k_max - 1, point);
        lemma_chain_grows(n, k_min, k_max, point);
        let middle = epicycle_chain(n, k_min, k_max - 1, point);
        assert((middle + pair_terms(n, k_max, point)).take(narrow.len() as int) =~= middle.take(
            narrow.len() as int,
        ));
    }
}

/// The chain of rotating vectors ends where the reconstruction is: the tip of
/// its last vector is the sample of the reconstruction at the same position.
pub proof fn lemma_chain_ends_on_curve<C: Number>(
    signal: Seq<C>,
    k_min: int,
    k_max: int,
    point: int,
)
    requires
        band_valid(signal.len() as int, k_min, k_max),
        signal.len() <= usize::MAX,
        0 <= point < signal.len(),
    ensures
        chain_of(signal, k_min, k_max, point).len() > 0,
        chain_of(signal, k_min, k_max, point).last().tip == reconstruction_of(
            signal,
            k_min,
            k_max,
        )[point],
{
    let n = signal.len() as int;
    let terms = epicycle_chain(n, k_min, k_max, point);
    lemma_chain_is_reconstruction(n, k_min, k_max, point);
    lemma_chain_grows(n, k_min, k_max, point);
    assert(terms.len() > 0);
    assert(terms.take(terms.len() as int) =~= terms);
}

/// Checks the coordinates of a curve before they are paired into samples: each
/// x needs its y, so the two lists must be equally long.
pub fn check_coordinates(x_len: usize, y_len: usize) -> (r: Result<(), FourierError>)
    ensures
        match r {
            Ok(_) => x_len == y_len,
            Err(e) => x_len != y_len && e == FourierError::LengthMismatch,
        },
{
    if x_len != y_len {
        return Err(FourierError::LengthMismatch);
    }
    Ok(())
}

/// A curve, the band of frequencies that redraws it, and the playback state.
pub struct Fourier<C: Arithmetic> {
    fourier: math::Fourier<C>,
    k_min: usize,
    k_max: usize,
    // The curve rebuilt from the band, or nothing where the band does not fit.
    reconstruction: Vec<C>,
    current_point: u128,
    point_speed: i64,
    state: PlaybackState,
}

impl<C: Arithmetic> Fourier<C> {
    #[verifier::type_invariant]
    spec fn well_formed(self) -> bool {
        &&& self.current_point <= lap_of(self.fourier@.len() as int)
        &&& self.state is Stopped ==> self.current_point == 0
        &&& self.reconstruction@ == drawn_reconstruction(self.fourier@, (self.k_min, self.k_max))
    }

    /// The samples of the curve.
    pub closed spec fn signal(&self) -> Seq<C> {
        self.fourier@
    }

    /// The band of frequencies, lowest first.
    pub closed spec fn band(&self) -> (usize, usize) {
        (self.k_min, self.k_max)
    }

    /// The playback position, in position units.
    pub closed spec fn position(&self) -> int {
        self.current_point as int
    }

    /// The speed, in position units per microsecond.
    pub closed spec fn point_speed(&self) -> int {
        self.point_speed as int
    }

    /// The playback state.
    pub closed spec fn state(&self) -> PlaybackState {
        self.state
    }

    /// The curve and the band are those of `other`.
    pub open spec fn same_subject(&self, other: &Fourier<C>) -> bool {
        self.signal() == other.signal() && self.band() == other.band()
    }

    /// Builds an animation from the samples of a curve. The curve must have a
    /// sample and all its samples must be finite.
    pub fn new(samples: Vec<C>, k_min: usize, k_max: usize) -> (r: Result<Fourier<C>, FourierError>)
        ensures
            match r {
                Ok(animation) => {
                    &&& math::signal_defect(samples@) is None
                    &&& animation.signal() == samples@
                    &&& animation.band() == (k_min, k_max)
                    &&& animation.position() == 0
                    &&& animation.point_speed() == DEFAULT_SPEED
                    &&& animation.state() == PlaybackState::Stopped
                },
                Err(e) => math::signal_defect(samples@) == Some(e),
            },
    {
        match math::Fourier::from_complex(samples) {
            Ok(fourier) => Self::from_fourier(fourier, k_min, k_max),
            Err(e) => Err(e),
        }
    }

    /// Builds an animation from an analysed curve. The animation is stopped, at
    /// position 0 and at the default speed. The band is taken as it is: one
    /// that does not fit the curve is reported by `check_frequency_range` and,
    /// tick by tick, by `step`.
    pub fn from_fourier(fourier: math::Fourier<C>, k_min: usize, k_max: usize) -> (r: Result<
        Fourier<C>,
        FourierError,
    >)
        ensures
            r matches Ok(animation) && {
                &&& animation.signal() == fourier@
                &&& animation.band() == (k_min, k_max)
                &&& animation.position() == 0
                &&& animation.point_speed() == DEFAULT_SPEED
                &&& animation.state() == PlaybackState::Stopped
            },
    {
        let reconstruction = match fourier.filtered_range(k_min, k_max) {
            Ok(filtered) => filtered,
            Err(_) => Vec::new(),
        };
        Ok(
            Fourier {
                fourier,
                k_min,
                k_max,
                reconstruction,
                current_point: 0,
                point_speed: DEFAULT_SPEED,
                state: PlaybackState::Stopped,
            },
        )
    }

    /// Starts playback from where the position stands: from 0 when the
    /// animation is stopped.
    pub fn start(&mut self)
        ensures
            final(self).state() == PlaybackState::Playing,
            final(self).position() == old(self).position(),
            old(self).state() == PlaybackState::Stopped ==> final(self).position() == 0,
            final(self).point_speed() == old(self).point_speed(),
            final(self).same_subject(old(self)),
    {
        proof {
            use_type_invariant(&*self);
        }
        self.state = PlaybackState::Playing;
    }

    /// Stops playback and puts the position back to 0.
    pub fn stop(&mut self)
        ensures
            final(self).state() == PlaybackState::Stopped,
            final(self).position() == 0,
            final(self).point_speed() == old(self).point_speed(),
            final(self).same_subject(old(self)),
    {
        proof {
            use_type_invariant(&*self);
        }
        self.current_point = 0;
        self.state = PlaybackState::Stopped;
    }

    /// Resumes a paused animation. In any other state nothing changes.
    pub fn play(&mut self)
        ensures
            final(self).state() == if old(self).state() == PlaybackState::Paused {
                PlaybackState::Playing
            } else {
                old(self).state()
            },
            final(self).position() == old(self).position(),
            final(self).point_speed() == old(self).point_speed(),
            final(self).same_subject(old(self)),
    {
        proof {
            use_type_invariant(&*self);
        }
        match self.state {
            PlaybackState::Paused => {
                self.state = PlaybackState::Playing;
            },
            _ => {},
        }
    }

    /// Pauses a playing animation. In any other state nothing changes.
    pub fn pause(&mut self)
        ensures
            final(self).state() == if old(self).state() == PlaybackState::Playing {
                PlaybackState::Paused
            } else {
                old(self).state()
            },
            final(self).position() == old(self).position(),
            final(self).point_speed() == old(self).point_speed(),
            final(self).same_subject(old(self)),
    {
        proof {
            use_type_invariant(&*self);
        }
        match self.state {
            PlaybackState::Playing => {
                self.state = PlaybackState::Paused;
            },
            _ => {},
        }
    }

    /// Tells whether playback is paused.
    pub fn is_paused(&self) -> (r: bool)
        ensures
            r == (self.state() == PlaybackState::Paused),
    {
        match self.state {
            PlaybackState::Paused => true,
            _ => false,
        }
    }

    /// Tells whether playback is stopped. A stopped animation stands at
    /// position 0.
    pub fn is_stopped(&self) -> (r: bool)
        ensures
            r == (self.state() == PlaybackState::Stopped),
            r ==> self.position() == 0,
    {
        proof {
            use_type_invariant(self);
        }
        match self.state {
            PlaybackState::Stopped => true,
            _ => false,
        }
    }

    /// Sets the speed. A negative speed plays backwards.
    pub fn set_speed(&mut self, speed: i64)
        ensures
            final(self).point_speed() == speed,
            final(self).state() == old(self).state(),
            final(self).position() == old(self).position(),
            final(self).same_subject(old(self)),
    {
        proof {
            use_type_invariant(&*self);
        }
        self.point_speed = speed;
    }

    /// The speed.
    pub fn speed(&self) -> (speed: i64)
        ensures
            speed == self.point_speed(),
    {
        self.point_speed
    }

    /// The analysed curve.
    pub fn fourier(&self) -> (fourier: &math::Fourier<C>)
        ensures
            fourier@ == self.signal(),
    {
        &self.fourier
    }

    /// The band of frequencies, lowest first.
    pub fn frequency_range(&self) -> (band: (usize, usize))
        ensures
            band == self.band(),
    {
        (self.k_min, self.k_max)
    }

    /// The curve rebuilt from the band. Where the band does not fit the curve,
    /// there is nothing.
    pub fn reconstruction(&self) -> (curve: &[C])
        ensures
            curve@ == drawn_reconstruction(self.signal(), self.band()),
    {
        proof {
            use_type_invariant(self);
        }
        self.reconstruction.as_slice()
    }

    /// The sample that playback has reached.
    pub fn current_point(&self) -> (point: usize)
        ensures
            point == point_at(self.position(), self.signal().len() as int),
            point < self.signal().len(),
    {
        proof {
            use_type_invariant(self);
        }
        let n = self.fourier.size();
        let whole = self.current_point / (UNITS_PER_SAMPLE as u128);
        ((n as u128 + whole) % (n as u128)) as usize
    }

    /// Checks that the band fits the curve: it is not reversed and does not
    /// reach past the largest frequency of the curve.
    pub fn check_frequency_range(&self) -> (r: Result<(), FourierError>)
        ensures
            match r {
                Ok(_) => band_valid(
                    self.signal().len() as int,
                    self.band().0 as int,
                    self.band().1 as int,
                ),
                Err(e) => e == band_error(
                    self.signal().len() as int,
                    self.band().0,
                    self.band().1,
                ) && !band_valid(
                    self.signal().len() as int,
                    self.band().0 as int,
                    self.band().1 as int,
                ),
            },
    {
        let max_frequency = self.fourier.max_frequency();
        if self.k_min > self.k_max || self.k_max > max_frequency {
            return Err(
                FourierError::InvalidRange { k_min: self.k_min, k_max: self.k_max, max_frequency },
            );
        }
        Ok(())
    }

    /// The chain of rotating vectors at `current_point`: for each frequency of
    /// the band, lowest first, its vector and then, unless the frequency is 0,
    /// the vector of its mirror. The vectors are laid tip to tail from 0, and
    /// the last one ends on the reconstruction at `current_point`.
    pub fn fourier_components(&self, current_point: usize) -> (r: Result<
        Vec<Epicycle<C>>,
        FourierError,
    >)
        ensures
            match r {
                Ok(chain) => {
                    &&& band_valid(
                        self.signal().len() as int,
                        self.band().0 as int,
                        self.band().1 as int,
                    )
                    &&& chain@ == chain_of(
                        self.signal(),
                        self.band().0 as int,
                        self.band().1 as int,
                        current_point as int,
                    )
                    &&& current_point < self.signal().len() ==> chain@.len() > 0
                        && chain@.last().tip == drawn_reconstruction(
                        self.signal(),
                        self.band(),
                    )[current_point as int]
                },
                Err(e) => e == band_error(
                    self.signal().len() as int,
                    self.band().0,
                    self.band().1,
                ) && !band_valid(
                    self.signal().len() as int,
                    self.band().0 as int,
                    self.band().1 as int,
                ),
            },
    {
        match self.check_frequency_range() {
            Err(e) => {
                return Err(e);
            },
            Ok(_) => {},
        }
        let total_points = self.fourier.size();
        let transform = self.fourier.coefficients();
        let roots = self.fourier.roots();
        let ghost n = total_points as int;
        let ghost point = current_point as int;
        let ghost all = epicycle_chain(n, self.k_min as int, self.k_max as int, point);
        let mut chain: Vec<Epicycle<C>> = Vec::new();
        let mut k: usize = self.k_min;
        proof {
            lemma_chain_begins(n, self.k_min as int, self.k_min - 1, self.k_max as int, point);
        }
        while k <= self.k_max
            invariant
                n == total_points == self.fourier@.len() == transform@.len() == roots@.len(),
                n >= 1,
                point == current_point,
                transform@ == coefficients_of(self.fourier@),
                roots@ == root_table::<C>(self.fourier@.len()),
                band_valid(n, self.k_min as int, self.k_max as int),
                self.k_min <= k <= self.k_max + 1,
                all == epicycle_chain(n, self.k_min as int, self.k_max as int, point),
                chain@.len() == epicycle_chain(n, self.k_min as int, k as int - 1, point).len(),
                chain@.len() <= all.len(),
                forall|j: int|
                    0 <= j < chain@.len() ==> #[trigger] chain@[j] == epicycle_at(
                        all,
                        transform@,
                        roots@,
                        j,
                    ),
            decreases self.k_max + 1 - k,
        {
            proof {
                lemma_chain_grows(n, self.k_min as int, k as int, point);
                lemma_chain_begins(n, self.k_min as int, k as int, self.k_max as int, point);
            }
            let ghost grown = epicycle_chain(n, self.k_min as int, k as int, point);
            let ghost place = chain@.len() as int;
            assert(all[place] == grown[place]);
            assert(all[place] == component_of(n, k as int, point));
            let component = transform[k].multiplied(&roots[turn(total_points, k, current_point)]);
            let tip = lay(&chain, component);
            proof {
                assert(all.take(place + 1) =~= all.take(place).push(all[place]));
                lemma_total_push(all.take(place), all[place], transform@, roots@);
                assert(all.take(0) =~= Seq::<Term>::empty());
            }
            chain.push(Epicycle { index: k, tip });
            if k != 0 {
                assert(all[place + 1] == grown[place + 1]);
                assert(all[place + 1] == component_of(n, n - k, point));
                let component = transform[total_points - k].multiplied(
                    &roots[turn(total_points, total_points - k, current_point)],
                );
                let tip = lay(&chain, component);
                proof {
                    assert(all.take(place + 2) =~= all.take(place + 1).push(all[place + 1]));
                    lemma_total_push(all.take(place + 1), all[place + 1], transform@, roots@);
                }
                chain.push(Epicycle { index: total_points - k, tip });
            }
            k = k + 1;
        }
        proof {
            assert(chain@ =~= chain_of(
                self.signal(),
                self.band().0 as int,
                self.band().1 as int,
                point,
            ));
            if current_point < total_points {
                lemma_chain_ends_on_curve(
                    self.signal(),
                    self.band().0 as int,
                    self.band().1 as int,
                    point,
                );
            }
        }
        Ok(chain)
    }

    /// What there is to draw when playback stands at `current_point`, or the
    /// reason for which nothing is drawn.
    fn plot_all(&self, current_point: usize) -> (tick: Tick<C>)
        requires
            current_point < self.signal().len(),
        ensures
            tick_shows(tick, true, self.signal(), self.band(), current_point as int),
    {
        let total_points = self.fourier.size();
        assert(current_point < total_points);
        match self.fourier_components(current_point) {
            Ok(epicycles) => Tick::Frame(
                Frame { current_point, reconstructed: current_point + 1, epicycles },
            ),
            Err(e) => Tick::Skipped(e),
        }
    }

    /// Advances playback by `elapsed` microseconds and says what to draw.
    ///
    /// Unless the animation is playing, nothing changes. Otherwise the
    /// position moves by `speed * elapsed`. A position that falls below 0 is
    /// put at the end of the curve; one that runs past the end starts over
    /// from the beginning. A band that does not fit the curve is reported for
    /// this tick, and playback goes on.
    pub fn step(&mut self, elapsed: u64) -> (tick: Tick<C>)
        ensures
            final(self).same_subject(old(self)),
            final(self).state() == old(self).state(),
            final(self).point_speed() == old(self).point_speed(),
            final(self).position() == if old(self).state() == PlaybackState::Playing {
                advance(
                    old(self).position(),
                    old(self).point_speed(),
                    elapsed as int,
                    lap_of(old(self).signal().len() as int),
                )
            } else {
                old(self).position()
            },
            tick_shows(
                tick,
                old(self).state() == PlaybackState::Playing,
                old(self).signal(),
                old(self).band(),
                point_at(final(self).position(), old(self).signal().len() as int),
            ),
    {
        proof {
            use_type_invariant(&*self);
        }
        match self.state {
            PlaybackState::Playing => {},
            _ => {
                return Tick::Idle;
            },
        }
        let n = self.fourier.size();
        assert(n * UNITS_PER_SAMPLE <= 0xffff_ffff_ffff_ffff * 1_000_000_000) by (nonlinear_arith)
            requires
                n <= 0xffff_ffff_ffff_ffff,
                UNITS_PER_SAMPLE == 1_000_000_000,
        ;
        assert(n * UNITS_PER_SAMPLE >= 1) by (nonlinear_arith)
            requires
                n >= 1,
                UNITS_PER_SAMPLE == 1_000_000_000,
        ;
        let lap: u128 = (n as u128) * (UNITS_PER_SAMPLE as u128);
        let speed = self.point_speed;
        assert(-0x8000_0000_0000_0000 * 0xffff_ffff_ffff_ffff <= speed * elapsed
            <= 0x7fff_ffff_ffff_ffff * 0xffff_ffff_ffff_ffff) by (nonlinear_arith)
            requires
                -0x8000_0000_0000_0000 <= speed <= 0x7fff_ffff_ffff_ffff,
                0 <= elapsed <= 0xffff_ffff_ffff_ffff,
        ;
        let moved_by: i128 = (speed as i128) * (elapsed as i128);
        let ghost before = self.current_point as int;
        if moved_by >= 0 {
            let within_lap = (moved_by as u128) % lap;
            proof {
                if before + moved_by >= lap {
                    vstd::arithmetic::div_mod::lemma_add_mod_noop_right(
                        before,
                        moved_by as int,
                        lap as int,
                    );
                } else {
                    vstd::arithmetic::div_mod::lemma_small_mod(moved_by as nat, lap as nat);
                    vstd::arithmetic::div_mod::lemma_small_mod(
                        (before + moved_by) as nat,
                        lap as nat,
                    );
                }
            }
            self.current_point = (self.current_point + within_lap) % lap;
        } else {
            let back = (-moved_by) as u128;
            if back > self.current_point {
                self.current_point = lap;
            } else {
                self.current_point = self.current_point - back;
            }
        }
        let current_point = self.current_point();
        self.plot_all(current_point)
    }
}

/// The end of the chain once `component` is laid on it: the tip of the last
/// vector plus `component`, and `component` itself on an empty chain.
fn lay<C: Arithmetic>(chain: &Vec<Epicycle<C>>, component: C) -> (tip: C)
    ensures
        tip == if chain@.len() == 0 {
            C::zero().plus(component)
        } else {
            chain@.last().tip.plus(component)
        },
{
    if chain.len() == 0 {
        C::new_zero().added(&component)
    } else {
        chain[chain.len() - 1].tip.added(&component)
    }
}

/// `(numerator * speed + half) / denominator` on the size of the speed, with
/// its sign, kept within the range of a speed.
fn scale_speed(speed: i64, numerator: u8, half: u8, denominator: u8) -> (scaled: i64)
    requires
        denominator > 0,
    ensures
        scaled == within_speeds(
            if speed >= 0 {
                (numerator * speed + half) / (denominator as int)
            } else {
                -((numerator * (-speed) + half) / (denominator as int))
            },
        ),
{
    let magnitude: i128 = if speed >= 0 {
        speed as i128
    } else {
        -(speed as i128)
    };
    assert(0 <= numerator * magnitude <= 255 * 0x8000_0000_0000_0000) by (nonlinear_arith)
        requires
            0 <= magnitude <= 0x8000_0000_0000_0000,
            0 <= numerator <= 255,
    ;
    let quotient: i128 = ((numerator as i128) * magnitude + (half as i128)) / (denominator as i128);
    let exact: i128 = if speed >= 0 {
        quotient
    } else {
        -quotient
    };
    if exact > i64::MAX as i128 {
        i64::MAX
    } else if exact < i64::MIN as i128 {
        i64::MIN
    } else {
        exact as i64
    }
}

/// Puts `animation` in the place of the current one.
pub fn set_animation<C: Arithmetic>(current: &mut Option<Fourier<C>>, animation: Fourier<C>)
    ensures
        *final(current) == Some(animation),
{
    *current = Some(animation);
}

/// Discards the current animation.
pub fn clear_animation<C: Arithmetic>(current: &mut Option<Fourier<C>>)
    ensures
        *final(current) is None,
{
    *current = None;
}

/// The one button that plays and pauses. Without an animation, or with a
/// stopped one, nothing changes and the caller is told to build a new
/// animation. A paused animation plays again. A playing one first goes back to
/// the default speed if it has another, and is paused otherwise.
pub fn play_pause_animation<C: Arithmetic>(current: &mut Option<Fourier<C>>) -> (done: PlayPause)
    ensures
        match *old(current) {
            None => done == PlayPause::Restart && *final(current) is None,
            Some(before) => {
                &&& *final(current) matches Some(after)
                &&& after.same_subject(&before)
                &&& after.position() == before.position()
                &&& match before.state() {
                    PlaybackState::Stopped => {
                        &&& done == PlayPause::Restart
                        &&& after.state() == PlaybackState::Stopped
                        &&& after.point_speed() == before.point_speed()
                    },
                    PlaybackState::Paused => {
                        &&& done == PlayPause::Resumed
                        &&& after.state() == PlaybackState::Playing
                        &&& after.point_speed() == before.point_speed()
                    },
                    PlaybackState::Playing => if before.point_speed() != DEFAULT_SPEED {
                        &&& done == PlayPause::SpeedReset
                        &&& after.state() == PlaybackState::Playing
                        &&& after.point_speed() == DEFAULT_SPEED
                    } else {
                        &&& done == PlayPause::Paused
                        &&& after.state() == PlaybackState::Paused
                        &&& after.point_speed() == DEFAULT_SPEED
                    },
                }
            },
        },
{
    match current {
        Some(var) => {
            if var.is_stopped() {
                PlayPause::Restart
            } else if var.is_paused() {
                var.play();
                PlayPause::Resumed
            } else if var.speed() != DEFAULT_SPEED {
                var.set_speed(DEFAULT_SPEED);
                PlayPause::SpeedReset
            } else {
                var.pause();
                PlayPause::Paused
            }
        },
        None => PlayPause::Restart,
    }
}

/// Stops the current animation, if there is one.
pub fn stop_animation<C: Arithmetic>(current: &mut Option<Fourier<C>>)
    ensures
        match *old(current) {
            None => *final(current) is None,
            Some(before) => {
                &&& *final(current) matches Some(after)
                &&& after.same_subject(&before)
                &&& after.state() == PlaybackState::Stopped
                &&& after.position() == 0
                &&& after.point_speed() == before.point_speed()
            },
        },
{
    match current {
        Some(var) => {
            var.stop();
        },
        None => {},
    }
}

/// Makes the current animation, if there is one, half as fast again. The new
/// speed is rounded to the nearest whole number, so that
/// `decrease_animation_speed` undoes it.
pub fn increase_animation_speed<C: Arithmetic>(current: &mut Option<Fourier<C>>)
    ensures
        match *old(current) {
            None => *final(current) is None,
            Some(before) => {
                &&& *final(current) matches Some(after)
                &&& after.same_subject(&before)
                &&& after.state() == before.state()
                &&& after.position() == before.position()
                &&& after.point_speed() == increased_speed(before.point_speed())
            },
        },
{
    match current {
        Some(var) => {
            let speed = var.speed();
            var.set_speed(scale_speed(speed, 6, 2, 4));
        },
        None => {},
    }
}

/// Slows the current animation, if there is one, to two thirds of its speed,
/// rounded to the nearest whole number. After `increase_animation_speed` this
/// gives the speed back that was there before.
pub fn decrease_animation_speed<C: Arithmetic>(current: &mut Option<Fourier<C>>)
    ensures
        match *old(current) {
            None => *final(current) is None,
            Some(before) => {
                &&& *final(current) matches Some(after)
                &&& after.same_subject(&before)
                &&& after.state() == before.state()
                &&& after.position() == before.position()
                &&& after.point_speed() == decreased_speed(before.point_speed())
            },
        },
{
    match current {
        Some(var) => {
            let speed = var.speed();
            var.set_speed(scale_speed(speed, 4, 3, 6));
        },
        None => {},
    }
}

} // verus!
