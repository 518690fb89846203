use hypha::config::Gc;
use hypha::gc::age::Age;
use hypha::gc::ladder::{Ladder, Rung, Setting};

fn ms(n: u128) -> u128 {
    n * 1_000_000
}

fn cfg() -> Gc {
    Gc {
        interval_ms: 8_000,
        min_interval_ms: 1_000,
        concurrency: 2,
        max_concurrency: 8,
        ..Gc::default()
    }
}

/// Three interval rungs, two concurrency rungs, and one threshold rung for each age.
fn ladder() -> Ladder {
    Ladder::new(&cfg(), 2)
}

#[test]
fn escalation_spends_work_before_it_spends_the_client() {
    let mut ladder = ladder();
    let mut seen = vec![(ladder.rung(), ladder.current())];
    while !ladder.clamped() {
        ladder.escalate();
        seen.push((ladder.rung(), ladder.current()));
    }

    let rungs: Vec<Rung> = seen.iter().map(|(rung, _)| *rung).collect();
    assert_eq!(
        rungs,
        vec![
            Rung::Unpressured,
            Rung::Interval,
            Rung::Interval,
            Rung::Interval,
            Rung::Concurrency,
            Rung::Concurrency,
            Rung::Threshold,
            Rung::Threshold,
            Rung::Threshold,
        ]
    );
    let settings: Vec<Setting> = seen.iter().map(|(_, s)| *s).collect();
    assert!(
        settings.iter().take_while(|s| s.threshold == Age::Miss).count() == 6,
        "the threshold must hold at miss until both cheap bounds are reached"
    );
    assert_eq!(
        settings.last().copied(),
        Some(Setting { interval: ms(1_000), concurrency: 8, threshold: Age::Window(0) })
    );
}

#[test]
fn a_zero_floor_still_yields_a_tickable_interval() {
    let mut ladder = Ladder::new(&Gc { interval_ms: 4, min_interval_ms: 0, ..cfg() }, 1);
    while ladder.rung() == Rung::Unpressured || ladder.rung() == Rung::Interval {
        assert!(ladder.current().interval != 0);
        ladder.escalate();
    }
}

#[test]
fn intervals_halve_to_the_floor_and_stop_there() {
    let mut ladder = ladder();
    let mut intervals = vec![ladder.current().interval];
    while ladder.rung() == Rung::Unpressured || ladder.rung() == Rung::Interval {
        ladder.escalate();
        intervals.push(ladder.current().interval);
    }
    assert_eq!(intervals, vec![ms(8_000), ms(4_000), ms(2_000), ms(1_000), ms(1_000)]);
}

#[test]
fn relax_surrenders_the_most_recent_rung_first() {
    let mut ladder = ladder();
    while !ladder.clamped() {
        ladder.escalate();
    }
    assert_eq!(ladder.current().threshold, Age::Window(0));

    ladder.relax();
    assert_eq!(
        ladder.current().threshold,
        Age::Window(1),
        "the threshold moves older before a cheap rung is given back"
    );
    assert_eq!(ladder.current().concurrency, 8);
    assert_eq!(ladder.current().interval, ms(1_000));
}

#[test]
fn reset_returns_to_the_configured_base() {
    let mut ladder = ladder();
    for _ in 0..20 {
        ladder.escalate();
    }
    ladder.reset();
    assert_eq!(ladder.rung(), Rung::Unpressured);
    assert_eq!(
        ladder.current(),
        Setting { interval: ms(8_000), concurrency: 2, threshold: Age::Miss }
    );
}

#[test]
fn the_in_flight_jump_stops_short_of_the_threshold() {
    let mut ladder = ladder();
    ladder.escalate_reversible();
    assert_eq!(ladder.rung(), Rung::Concurrency);
    assert_eq!(
        ladder.current(),
        Setting { interval: ms(1_000), concurrency: 8, threshold: Age::Miss },
        "both cheap rungs at their bounds, the threshold untouched"
    );
    assert!(!ladder.clamped());
}

#[test]
fn the_in_flight_jump_never_walks_the_threshold_back() {
    let mut ladder = ladder();
    while !ladder.clamped() {
        ladder.escalate();
    }
    ladder.escalate_reversible();
    assert!(ladder.clamped());
}

#[test]
fn a_ladder_with_no_reversible_rungs_still_climbs() {
    let mut ladder = Ladder::new(
        &Gc {
            interval_ms: 1_000,
            min_interval_ms: 1_000,
            concurrency: 4,
            max_concurrency: 4,
            ..Gc::default()
        },
        1,
    );
    assert_eq!(ladder.rung(), Rung::Unpressured);
    ladder.escalate();
    assert_eq!(ladder.rung(), Rung::Threshold);
    assert_eq!(ladder.current().threshold, Age::Window(1));
    ladder.escalate_reversible();
    assert_eq!(
        ladder.current().threshold,
        Age::Window(1),
        "a jump with nothing cheap left to take must not disturb the threshold"
    );
}

#[test]
fn ages_order_coldest_greatest() {
    assert!(Age::Window(0) < Age::Window(1));
    assert!(Age::Window(u16::MAX) < Age::Miss);
    assert!(Age::Miss.is_at_least(Age::Miss));
    assert!(Age::Window(2).is_at_least(Age::Window(1)));
    assert!(!Age::Window(2).is_at_least(Age::Miss));
}
