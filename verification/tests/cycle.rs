use sunayama::cycle::{
    next_gap, parse_duration, sway, timer_from_args, Cycle, Endless, Pile, Quota, Want,
    DRIBBLE_GRAINS, EMPTY_PAUSE, NUDGE_GRAINS,
};
use sunayama::rng::Rng;

const FULL: usize = 800;

/// The shares of a full pile: an opening asks from a tenth of it up to nine tenths.
fn quota(full: usize, timed: usize) -> Quota {
    let (low, high) = (0.1, 0.9);
    Quota {
        full,
        dusting: (low * full as f64) as usize,
        spread: ((high - low) * full as f64) as usize,
        timed,
    }
}

fn q() -> Quota {
    quota(FULL, 0)
}

fn endless(now: u64) -> Cycle {
    Cycle::Endless(Endless::opening(now, q().dusting, q().spread, &mut Rng::new(3)))
}

fn grains(want: Want) -> Option<usize> {
    match want {
        Want::Sand(grains) => Some(grains),
        _ => None,
    }
}

fn rested(filled: usize) -> Pile {
    Pile {
        filled,
        resting: true,
    }
}

const NOW: u64 = 1_000_000;

#[test]
fn a_full_pile_waits_for_the_last_grains_to_land_before_it_collapses() {
    let now = NOW;
    let mut cycle = endless(now);
    let mut rng = Rng::new(1);
    for _ in 0..1_000 {
        cycle.nudge(FULL);
    }

    let falling = Pile {
        filled: FULL,
        resting: false,
    };
    assert!(
        grains(cycle.want(now, q(), falling, &mut rng)).is_some(),
        "a full pile collapsed with sand still in the air"
    );
    assert!(matches!(
        cycle.want(now, q(), rested(FULL), &mut rng),
        Want::Drain(_)
    ));
}

#[test]
fn a_round_opens_anywhere_from_a_dusting_to_nearly_full() {
    let mut seen = (FULL, 0);
    for seed in 1..200 {
        let opening = Endless::opening(NOW, q().dusting, q().spread, &mut Rng::new(seed)).goal();
        assert!(
            (80..720).contains(&opening),
            "opened at {opening} of {FULL}"
        );
        seen = (seen.0.min(opening), seen.1.max(opening));
    }
    assert!(
        seen.1 - seen.0 > FULL / 2,
        "openings only spanned {seen:?} of {FULL}"
    );
}

#[test]
fn the_dribble_waits_between_one_and_five_seconds() {
    let now = NOW;
    let mut rng = Rng::new(1);
    let mut seen = (u64::MAX, 0);
    for _ in 0..200 {
        let gap = next_gap(&mut rng);
        assert!((1_000..=5_000).contains(&gap), "waited {gap}ms");
        seen = (seen.0.min(gap), seen.1.max(gap));
    }
    assert!(
        seen.0 < 1_500 && seen.1 > 4_500,
        "gaps only spanned {seen:?}"
    );

    let mut cycle = endless(now);
    let opening = cycle.asked(q());
    assert_eq!(
        grains(cycle.want(now, q(), rested(0), &mut rng)),
        Some(opening)
    );
    let soon = now + 900;
    assert_eq!(
        grains(cycle.want(soon, q(), rested(0), &mut rng)),
        Some(opening),
        "sand arrived before the shortest gap"
    );
    let later = now + 5_100;
    assert_eq!(
        grains(cycle.want(later, q(), rested(0), &mut rng)),
        Some(opening + DRIBBLE_GRAINS)
    );
}

#[test]
fn a_nudge_asks_for_more_but_never_past_full() {
    let mut cycle = endless(NOW);
    let opening = cycle.asked(q());
    cycle.nudge(FULL);
    assert_eq!(cycle.asked(q()), opening + NUDGE_GRAINS);
    for _ in 0..1_000 {
        cycle.nudge(FULL);
    }
    assert_eq!(cycle.asked(q()), FULL);
}

#[test]
fn a_full_pile_sinks_pauses_and_opens_again() {
    let now = NOW;
    let mut cycle = endless(now);
    let mut rng = Rng::new(1);
    for _ in 0..1_000 {
        cycle.nudge(FULL);
    }

    assert!(matches!(
        cycle.want(now, q(), rested(FULL), &mut rng),
        Want::Drain(_)
    ));
    assert!(matches!(
        cycle.want(now, q(), rested(12), &mut rng),
        Want::Drain(_)
    ));
    assert!(matches!(
        cycle.want(now, q(), rested(0), &mut rng),
        Want::Nothing
    ));

    let after = now + EMPTY_PAUSE;
    let reopened = grains(cycle.want(after, q(), rested(0), &mut rng));
    assert!(reopened.is_some_and(|goal| goal < FULL));
}

#[test]
fn a_nudge_does_nothing_once_the_pile_is_sinking() {
    let now = NOW;
    let mut cycle = endless(now);
    let mut rng = Rng::new(1);
    for _ in 0..1_000 {
        cycle.nudge(FULL);
    }
    cycle.want(now, q(), rested(FULL), &mut rng);
    cycle.nudge(FULL);
    assert!(matches!(
        cycle.want(now, q(), rested(FULL), &mut rng),
        Want::Drain(_)
    ));
}

fn timer() -> Cycle {
    Cycle::Timer {
        period: 1_500_000,
        start: 10_000_000,
    }
}

/// What the timer asks of a full pile at wall-clock second `secs`: its progress through
/// the period, in floating point as the program works it out.
fn timed_at(secs: u64) -> Quota {
    let (period, start) = (1_500_000u64, 10_000_000u64);
    let wall = secs * 1000;
    let progress = if wall >= start {
        (wall - start) as f64 / 1000.0 / (period as f64 / 1000.0)
    } else {
        0.0
    }
    .clamp(0.0, 1.0);
    quota(FULL, (progress * FULL as f64) as usize)
}

#[test]
fn a_timer_counts_from_its_start_and_stops_when_full() {
    let cycle = timer();
    assert_eq!(cycle.asked(timed_at(10_000)), 0);
    assert_eq!(cycle.asked(timed_at(10_750)), FULL / 2);
    assert_eq!(cycle.asked(timed_at(11_500)), FULL);
    assert_eq!(cycle.asked(timed_at(99_999)), FULL);
}

#[test]
fn a_full_timer_sits_still_instead_of_collapsing() {
    let mut cycle = timer();
    let mut rng = Rng::new(1);
    let finished = quota(FULL, FULL);
    for _ in 0..10 {
        assert_eq!(
            grains(cycle.want(NOW, finished, rested(FULL), &mut rng)),
            Some(FULL),
            "a finished timer should stay full, not drain"
        );
    }
}

#[test]
fn a_timer_takes_no_input() {
    let mut cycle = timer();
    assert!(!cycle.takes_input());
    assert!(endless(NOW).takes_input());
    cycle.nudge(FULL);
    assert_eq!(cycle.asked(quota(FULL, 0)), 0);
}

#[test]
fn durations_need_a_number_and_a_unit() {
    assert_eq!(parse_duration("25m").unwrap(), 1500);
    assert_eq!(parse_duration("90s").unwrap(), 90);
    assert_eq!(parse_duration("2h").unwrap(), 7200);
    assert!(parse_duration("25").is_err());
    assert!(parse_duration("m").is_err());
    assert!(parse_duration("0m").is_err());
    assert!(parse_duration("").is_err());
}

#[test]
fn a_timer_argument_switches_the_cycle() {
    let args = vec!["--timer".to_string(), "25m".to_string()];
    assert_eq!(timer_from_args(&args).unwrap(), Some(1500));
    assert_eq!(timer_from_args(&Vec::new()).unwrap(), None);
    assert!(timer_from_args(&vec!["--timer".to_string()]).is_err());
    assert!(timer_from_args(&vec!["--wat".to_string()]).is_err());
}

#[test]
fn duration_complaints_name_the_text() {
    assert_eq!(
        parse_duration("25").unwrap_err(),
        "25 needs a unit: 90s, 25m or 1h"
    );
    assert_eq!(
        parse_duration("xm").unwrap_err(),
        "xm needs a number before the unit"
    );
    assert_eq!(
        parse_duration("0s").unwrap_err(),
        "0s is not long enough to watch"
    );
    assert_eq!(parse_duration("+3m").unwrap(), 180);
    assert_eq!(
        timer_from_args(&vec!["--wat".to_string()]).unwrap_err(),
        "unknown argument --wat"
    );
    assert_eq!(
        timer_from_args(&vec!["--timer".to_string()]).unwrap_err(),
        "--timer wants a duration, e.g. 25m"
    );
}

#[test]
fn the_last_timer_argument_wins() {
    let args = vec![
        "--timer".to_string(),
        "1h".to_string(),
        "--timer".to_string(),
        "90s".to_string(),
    ];
    assert_eq!(timer_from_args(&args).unwrap(), Some(90));
}

#[test]
fn the_sinking_pile_sways_right_back_left_back() {
    assert_eq!(sway(0), 0);
    assert_eq!(sway(50), 1);
    assert_eq!(sway(99), 1);
    assert_eq!(sway(100), 0);
    assert_eq!(sway(150), -1);
    assert_eq!(sway(200), 0);
}

#[test]
fn a_goal_at_the_top_of_a_usize_only_refuses_what_would_overflow() {
    let cycle = Cycle::Endless(Endless::opening(0, usize::MAX - 2, 0, &mut Rng::new(3)));
    assert!(!cycle.can_nudge());
    assert!(cycle.can_step(0), "no dribble is due before the shortest gap");
    assert!(!cycle.can_step(10_000));
    let timer = Cycle::Timer {
        period: 1_000,
        start: 0,
    };
    assert!(timer.can_nudge());
    assert!(timer.can_step(u64::MAX));
}
