use epicycles::animation::{
    check_coordinates, clear_animation, decrease_animation_speed, increase_animation_speed,
    play_pause_animation,
    set_animation, stop_animation, Epicycle, Fourier, Frame, PlayPause, Tick, DEFAULT_SPEED,
    UNITS_PER_SAMPLE,
};
use epicycles::exact::Arithmetic;
use epicycles::math;
use epicycles::math::FourierError;
use epicycles::residue::Mod7;

type Animation = Fourier<Mod7>;

fn ramp(n: usize) -> Vec<Mod7> {
    (0..n).map(|i| Mod7::new(i as u64)).collect()
}

fn curve(n: usize, k_min: usize, k_max: usize) -> Animation {
    Fourier::from_fourier(math::Fourier::from_complex(ramp(n)).unwrap(), k_min, k_max).unwrap()
}

fn point_of(tick: Tick<Mod7>) -> usize {
    match tick {
        Tick::Frame(frame) => frame.current_point,
        other => panic!("{:?}", other),
    }
}

#[test]
fn new_animation_is_stopped_at_the_default_speed() {
    let animation = curve(10, 0, 5);
    assert!(animation.is_stopped());
    assert!(!animation.is_paused());
    assert_eq!(animation.speed(), DEFAULT_SPEED);
    assert_eq!(animation.speed(), 50_000);
    assert_eq!(animation.current_point(), 0);
    assert_eq!(UNITS_PER_SAMPLE, 1_000_000_000);
}

#[test]
fn new_animation_needs_a_signal() {
    assert_eq!(Animation::new(Vec::new(), 0, 0).err(), Some(FourierError::EmptyInput));
    let animation = Animation::new(ramp(5), 1, 2).unwrap();
    assert!(animation.is_stopped());
    assert_eq!(animation.frequency_range(), (1, 2));
    assert_eq!(animation.fourier().original(), &ramp(5)[..]);
    assert_eq!(animation.speed(), DEFAULT_SPEED);
}

#[test]
fn coordinate_lists_must_match() {
    assert_eq!(check_coordinates(3, 4), Err(FourierError::LengthMismatch));
    assert_eq!(check_coordinates(0, 1), Err(FourierError::LengthMismatch));
    assert_eq!(check_coordinates(usize::MAX, 0), Err(FourierError::LengthMismatch));
    assert_eq!(check_coordinates(0, 0), Ok(()));
    assert_eq!(check_coordinates(400, 400), Ok(()));
}

#[test]
fn start_of_a_stopped_animation_is_at_the_first_sample() {
    let mut animation = curve(10, 0, 1);
    animation.start();
    animation.step(60_000);
    assert_eq!(animation.current_point(), 3);
    animation.stop();
    assert!(animation.is_stopped());
    assert_eq!(animation.current_point(), 0);
    animation.set_speed(-3);
    animation.play();
    animation.pause();
    assert!(animation.is_stopped());
    assert_eq!(animation.current_point(), 0);
    animation.set_speed(50_000);
    animation.start();
    assert_eq!(animation.current_point(), 0);
    assert_eq!(point_of(animation.step(20_000)), 1);
}

#[test]
fn from_fourier_takes_any_band() {
    let fourier = math::Fourier::from_complex(ramp(4)).unwrap();
    let animation = Fourier::from_fourier(fourier, 9, 3).unwrap();
    assert!(animation.is_stopped());
    assert_eq!(animation.frequency_range(), (9, 3));
    assert_eq!(animation.fourier().original(), &ramp(4)[..]);
    assert!(animation.reconstruction().is_empty());
    assert_eq!(
        animation.check_frequency_range(),
        Err(FourierError::InvalidRange { k_min: 9, k_max: 3, max_frequency: 2 })
    );
    assert_eq!(curve(4, 0, 2).check_frequency_range(), Ok(()));
    assert_eq!(
        curve(4, 0, 3).check_frequency_range(),
        Err(FourierError::InvalidRange { k_min: 0, k_max: 3, max_frequency: 2 })
    );
}

#[test]
fn state_machine_transitions() {
    let mut animation = curve(10, 0, 1);
    // Only start leaves the stopped state.
    animation.play();
    assert!(animation.is_stopped());
    animation.pause();
    assert!(animation.is_stopped());
    animation.stop();
    assert!(animation.is_stopped());
    animation.start();
    assert!(!animation.is_stopped() && !animation.is_paused());
    animation.play();
    assert!(!animation.is_stopped() && !animation.is_paused());
    animation.pause();
    assert!(animation.is_paused() && !animation.is_stopped());
    animation.pause();
    assert!(animation.is_paused());
    animation.play();
    assert!(!animation.is_stopped() && !animation.is_paused());
    animation.stop();
    assert!(animation.is_stopped() && !animation.is_paused());
    animation.start();
    animation.pause();
    animation.stop();
    assert!(animation.is_stopped());
    animation.start();
    animation.pause();
    animation.start();
    assert!(!animation.is_stopped() && !animation.is_paused());
}

#[test]
fn step_moves_only_while_playing() {
    let mut animation = curve(10, 0, 1);
    assert_eq!(animation.step(1_000_000), Tick::Idle);
    assert_eq!(animation.current_point(), 0);
    animation.start();
    assert_eq!(point_of(animation.step(60_000)), 3);
    animation.pause();
    assert_eq!(animation.step(60_000), Tick::Idle);
    assert_eq!(animation.current_point(), 3);
    animation.play();
    assert_eq!(point_of(animation.step(60_000)), 6);
    animation.stop();
    assert_eq!(animation.current_point(), 0);
    assert_eq!(animation.step(60_000), Tick::Idle);
    assert_eq!(animation.current_point(), 0);
}

#[test]
fn frame_holds_the_chain_and_the_length_to_draw() {
    // The signal 1, 2, 3 has the coefficients 2, 5, 1 and the roots 1, 2, 4.
    let signal = vec![Mod7::N1, Mod7::N2, Mod7::N3];
    let fourier = math::Fourier::from_complex(signal.clone()).unwrap();
    let mut animation = Fourier::from_fourier(fourier, 0, 1).unwrap();
    assert_eq!(animation.reconstruction(), &signal[..]);
    animation.start();
    let tick = animation.step(40_000);
    let expected = Frame {
        current_point: 2,
        reconstructed: 3,
        epicycles: vec![
            Epicycle { index: 0, tip: Mod7::new(2) },
            Epicycle { index: 1, tip: Mod7::new(2 + 5 * 4) },
            Epicycle { index: 2, tip: Mod7::new(2 + 5 * 4 + 1 * 2) },
        ],
    };
    assert_eq!(tick, Tick::Frame(expected));
    // The chain ends on the curve.
    assert_eq!(Mod7::new(2 + 5 * 4 + 1 * 2), signal[2]);
}

#[test]
fn chain_without_the_mean_starts_with_the_lowest_frequency() {
    let fourier = math::Fourier::from_complex(ramp(6)).unwrap();
    let animation = Fourier::from_fourier(fourier, 1, 3).unwrap();
    let chain = animation.fourier_components(4).unwrap();
    let indices: Vec<usize> = chain.iter().map(|vector| vector.index).collect();
    assert_eq!(indices, vec![1, 5, 2, 4, 3, 3]);
    let mut tip = Mod7::N0;
    for vector in &chain {
        tip = tip.added(&animation.fourier().get_component(vector.index, 4).unwrap());
        assert_eq!(vector.tip, tip);
    }
    assert_eq!(tip, animation.reconstruction()[4]);
    let alone = curve(7, 0, 0).fourier_components(3).unwrap();
    assert_eq!(alone.len(), 1);
    assert_eq!(alone[0].index, 0);
}

#[test]
fn position_moves_by_speed_times_elapsed() {
    let mut animation = curve(400, 0, 3);
    animation.start();
    // 50 samples per second for a sixtieth of a second: five sixths of a sample.
    assert_eq!(point_of(animation.step(16_667)), 0);
    assert_eq!(point_of(animation.step(16_667)), 1);
    assert_eq!(point_of(animation.step(1_000_000)), 51);
    animation.set_speed(1);
    assert_eq!(point_of(animation.step(999_999_999)), 52);
}

#[test]
fn whole_lap_returns_to_the_start() {
    for n in [1usize, 2, 7, 10, 400] {
        let mut animation = curve(n, 0, 0);
        animation.start();
        let mut seen = Vec::new();
        for _ in 0..n {
            seen.push(point_of(animation.step(20_000)));
        }
        let expected: Vec<usize> = (1..=n).map(|i| i % n).collect();
        assert_eq!(seen, expected);
        assert_eq!(animation.current_point(), 0);
    }
    // From the middle of the curve, and at another speed.
    let mut animation = curve(12, 0, 0);
    animation.start();
    animation.set_speed(30_000);
    animation.step(150_000);
    let start = animation.current_point();
    assert_eq!(start, 4);
    for _ in 0..40 {
        animation.step(10_000);
    }
    assert_eq!(animation.current_point(), start);
}

#[test]
fn position_past_the_end_starts_over() {
    let mut animation = curve(10, 0, 0);
    animation.start();
    assert_eq!(point_of(animation.step(20_000 * 10 * 1_000 + 20_000 * 3)), 3);
    animation.set_speed(i64::MAX);
    animation.step(u64::MAX);
    assert!(animation.current_point() < 10);
}

#[test]
fn position_below_zero_goes_to_the_end() {
    let mut animation = curve(10, 0, 0);
    animation.start();
    animation.step(40_000);
    animation.set_speed(-50_000);
    assert_eq!(point_of(animation.step(20_000)), 1);
    // Falling below 0 puts the position at the end, which is sample 0 again.
    assert_eq!(point_of(animation.step(100_000)), 0);
    assert_eq!(point_of(animation.step(20_000)), 9);
    assert_eq!(point_of(animation.step(20_000)), 8);
    animation.set_speed(i64::MIN);
    assert_eq!(point_of(animation.step(u64::MAX)), 0);
    animation.set_speed(50_000);
    assert_eq!(point_of(animation.step(20_000)), 1);
}

#[test]
fn band_that_does_not_fit_skips_the_frame() {
    let fourier = math::Fourier::from_complex(ramp(6)).unwrap();
    let mut animation = Fourier::from_fourier(fourier, 0, 4).unwrap();
    animation.start();
    let failure = FourierError::InvalidRange { k_min: 0, k_max: 4, max_frequency: 3 };
    assert_eq!(animation.step(20_000), Tick::Skipped(failure));
    // Playback goes on all the same.
    assert!(!animation.is_stopped() && !animation.is_paused());
    assert_eq!(animation.current_point(), 1);
    assert_eq!(animation.step(20_000), Tick::Skipped(failure));
    assert_eq!(animation.current_point(), 2);
    assert_eq!(animation.fourier_components(0), Err(failure));
    assert!(animation.reconstruction().is_empty());
}

#[test]
fn set_speed_keeps_state_and_position() {
    let mut animation = curve(10, 0, 0);
    animation.set_speed(-7);
    assert_eq!(animation.speed(), -7);
    assert!(animation.is_stopped());
    animation.start();
    animation.set_speed(100_000);
    assert_eq!(point_of(animation.step(20_000)), 2);
    animation.set_speed(0);
    assert_eq!(point_of(animation.step(20_000)), 2);
    assert_eq!(animation.speed(), 0);
}

#[test]
fn play_pause_button() {
    let mut current: Option<Animation> = None;
    assert_eq!(play_pause_animation(&mut current), PlayPause::Restart);
    assert!(current.is_none());
    set_animation(&mut current, curve(10, 0, 1));
    // A stopped animation asks for a new one and is left alone.
    assert_eq!(play_pause_animation(&mut current), PlayPause::Restart);
    assert!(current.as_ref().unwrap().is_stopped());
    current.as_mut().unwrap().start();
    assert_eq!(play_pause_animation(&mut current), PlayPause::Paused);
    assert!(current.as_ref().unwrap().is_paused());
    assert_eq!(play_pause_animation(&mut current), PlayPause::Resumed);
    assert!(!current.as_ref().unwrap().is_paused());
    increase_animation_speed(&mut current);
    assert_eq!(play_pause_animation(&mut current), PlayPause::SpeedReset);
    assert_eq!(current.as_ref().unwrap().speed(), DEFAULT_SPEED);
    assert!(!current.as_ref().unwrap().is_paused());
    assert_eq!(play_pause_animation(&mut current), PlayPause::Paused);
    // A paused animation at another speed plays again at that speed.
    decrease_animation_speed(&mut current);
    assert_eq!(play_pause_animation(&mut current), PlayPause::Resumed);
    assert_eq!(current.as_ref().unwrap().speed(), 33_333);
}

#[test]
fn stop_and_clear() {
    let mut current: Option<Animation> = None;
    stop_animation(&mut current);
    assert!(current.is_none());
    let mut animation = curve(10, 0, 1);
    animation.start();
    animation.step(60_000);
    set_animation(&mut current, animation);
    assert_eq!(current.as_ref().unwrap().current_point(), 3);
    stop_animation(&mut current);
    assert!(current.as_ref().unwrap().is_stopped());
    assert_eq!(current.as_ref().unwrap().current_point(), 0);
    stop_animation(&mut current);
    assert!(current.as_ref().unwrap().is_stopped());
    clear_animation(&mut current);
    assert!(current.is_none());
    clear_animation(&mut current);
    assert!(current.is_none());
}

#[test]
fn slower_undoes_faster() {
    let mut current: Option<Animation> = None;
    set_animation(&mut current, curve(10, 0, 1));
    let speeds = [
        0i64,
        1,
        -1,
        2,
        3,
        -5,
        7,
        49_999,
        50_000,
        50_001,
        -33_333,
        1_000_000_007,
        i64::MAX / 3 * 2,
        i64::MIN / 3 * 2,
    ];
    for start in speeds {
        current.as_mut().unwrap().set_speed(start);
        increase_animation_speed(&mut current);
        let faster = current.as_ref().unwrap().speed();
        assert!(faster.abs() >= start.abs() && faster.signum() == start.signum());
        decrease_animation_speed(&mut current);
        assert_eq!(current.as_ref().unwrap().speed(), start);
    }
    for start in -2_000i64..2_000 {
        current.as_mut().unwrap().set_speed(start);
        for _ in 0..9 {
            increase_animation_speed(&mut current);
        }
        for _ in 0..9 {
            decrease_animation_speed(&mut current);
        }
        assert_eq!(current.as_ref().unwrap().speed(), start);
    }
}

#[test]
fn five_times_faster_and_five_times_slower_is_the_default_again() {
    let mut current: Option<Animation> = None;
    set_animation(&mut current, curve(10, 0, 1));
    current.as_mut().unwrap().start();
    let mut seen = Vec::new();
    for _ in 0..5 {
        increase_animation_speed(&mut current);
        seen.push(current.as_ref().unwrap().speed());
    }
    assert_eq!(seen, vec![75_000, 112_500, 168_750, 253_125, 379_688]);
    for _ in 0..5 {
        decrease_animation_speed(&mut current);
    }
    assert_eq!(current.as_ref().unwrap().speed(), DEFAULT_SPEED);
    // At the default speed the button pauses.
    assert_eq!(play_pause_animation(&mut current), PlayPause::Paused);
}

#[test]
fn speed_changes_by_halves_and_thirds() {
    let mut current: Option<Animation> = None;
    increase_animation_speed(&mut current);
    decrease_animation_speed(&mut current);
    assert!(current.is_none());
    set_animation(&mut current, curve(10, 0, 1));
    let speed = |current: &Option<Animation>| current.as_ref().unwrap().speed();
    increase_animation_speed(&mut current);
    assert_eq!(speed(&current), 75_000);
    increase_animation_speed(&mut current);
    assert_eq!(speed(&current), 112_500);
    decrease_animation_speed(&mut current);
    assert_eq!(speed(&current), 75_000);
    decrease_animation_speed(&mut current);
    decrease_animation_speed(&mut current);
    assert_eq!(speed(&current), 33_333);
    assert!(current.as_ref().unwrap().is_stopped());
    // Rounding is to the nearest whole number, a half away from 0.
    current.as_mut().unwrap().set_speed(-5);
    increase_animation_speed(&mut current);
    assert_eq!(speed(&current), -8);
    decrease_animation_speed(&mut current);
    assert_eq!(speed(&current), -5);
    current.as_mut().unwrap().set_speed(1);
    increase_animation_speed(&mut current);
    assert_eq!(speed(&current), 2);
    decrease_animation_speed(&mut current);
    assert_eq!(speed(&current), 1);
    decrease_animation_speed(&mut current);
    assert_eq!(speed(&current), 1);
    current.as_mut().unwrap().set_speed(0);
    increase_animation_speed(&mut current);
    decrease_animation_speed(&mut current);
    assert_eq!(speed(&current), 0);
    current.as_mut().unwrap().set_speed(4);
    decrease_animation_speed(&mut current);
    assert_eq!(speed(&current), 3);
    // A speed stays within its range.
    current.as_mut().unwrap().set_speed(i64::MAX);
    increase_animation_speed(&mut current);
    assert_eq!(speed(&current), i64::MAX);
    current.as_mut().unwrap().set_speed(i64::MIN);
    increase_animation_speed(&mut current);
    assert_eq!(speed(&current), i64::MIN);
    decrease_animation_speed(&mut current);
    assert_eq!(speed(&current), -6_148_914_691_236_517_205);
}
