use android_memeater::driver::{Action, Driver, Event, Phase, Plan};
use android_memeater::interval::Interval;
use android_memeater::pool::MemoryPool;
use android_memeater::priority::{is_valid_score, score_text, SCORE_MAX, SCORE_MIN};

fn plan(initial_bytes: usize, increment_bytes: usize) -> Plan {
    Plan { score: 50, initial_bytes, increment_bytes, interval: Interval::from_millis(250) }
}

#[test]
fn score_range_is_closed() {
    assert_eq!(SCORE_MIN, -1000);
    assert_eq!(SCORE_MAX, 1000);
    for score in [-1000, -999, -1, 0, 50, 999, 1000] {
        assert!(is_valid_score(score), "{score}");
    }
    for score in [i32::MIN, -10_000, -1001, 1001, 10_000, i32::MAX] {
        assert!(!is_valid_score(score), "{score}");
    }
}

#[test]
fn score_text_is_the_decimal_number() {
    assert_eq!(score_text(50), "50");
    assert_eq!(score_text(0), "0");
    assert_eq!(score_text(7), "7");
    assert_eq!(score_text(-1), "-1");
    assert_eq!(score_text(1000), "1000");
    assert_eq!(score_text(-1000), "-1000");
    for score in -1000..=1000 {
        assert_eq!(score_text(score), format!("{score}"));
        assert_eq!(score_text(score).parse::<i32>(), Ok(score));
    }
}

#[test]
fn pool_only_grows() {
    let mut pool = MemoryPool::new();
    assert_eq!(pool.block_count(), 0);
    assert_eq!(pool.total_bytes(), 0);
    let mut expected: u128 = 0;
    for (i, bytes) in [0usize, 1, 4_096, 0, 100_000, 7].into_iter().enumerate() {
        let before = pool.total_bytes();
        pool.grow(bytes);
        expected += bytes as u128;
        assert!(pool.total_bytes() >= before);
        assert_eq!(pool.total_bytes(), expected);
        assert_eq!(pool.block_count(), i + 1);
    }
}

#[test]
fn driver_asks_for_the_score_first() {
    let driver = Driver::new(plan(1_024, 256));
    assert_eq!(driver.phase(), Phase::Unprioritized);
    assert_eq!(driver.action(), Action::SetPriority(50));
    assert_eq!(driver.block_count(), 0);
    assert_eq!(driver.total_bytes(), 0);
}

#[test]
fn driver_allocates_then_sleeps() {
    let mut driver = Driver::new(plan(1_024, 256));
    let sleep = Action::Sleep(Interval::from_millis(250));

    assert_eq!(driver.step(Event::PrioritySet), sleep);
    assert_eq!(driver.phase(), Phase::Running);
    assert_eq!(driver.block_count(), 2);
    assert_eq!(driver.total_bytes(), 1_024 + 256);

    for round in 1..=5u128 {
        assert_eq!(driver.step(Event::Slept), sleep);
        assert_eq!(driver.phase(), Phase::Running);
        assert_eq!(driver.block_count() as u128, 2 + round);
        assert_eq!(driver.total_bytes(), 1_024 + 256 * (1 + round));
    }
    assert_eq!(driver.action(), sleep);
}

#[test]
fn driver_paces_even_when_it_allocates_nothing() {
    let mut driver = Driver::new(plan(0, 0));
    let sleep = Action::Sleep(Interval::from_millis(250));

    assert_eq!(driver.step(Event::PrioritySet), sleep);
    assert_eq!(driver.total_bytes(), 0);
    for _ in 0..10 {
        assert_eq!(driver.step(Event::Slept), sleep);
        assert_eq!(driver.total_bytes(), 0);
    }
    assert_eq!(driver.block_count(), 12);
}

#[test]
fn driver_stops_when_the_score_is_refused() {
    let mut driver = Driver::new(plan(1_024, 256));

    assert_eq!(driver.step(Event::PriorityRefused), Action::Abort);
    assert_eq!(driver.phase(), Phase::Aborted);
    assert_eq!(driver.total_bytes(), 0);
    for event in [Event::PrioritySet, Event::Slept, Event::PriorityRefused] {
        assert_eq!(driver.step(event), Action::Abort);
        assert_eq!(driver.phase(), Phase::Aborted);
        assert_eq!(driver.block_count(), 0);
    }
}

#[test]
fn driver_stops_on_an_event_out_of_turn() {
    let mut early = Driver::new(plan(8, 8));
    assert_eq!(early.step(Event::Slept), Action::Abort);
    assert_eq!(early.block_count(), 0);

    let mut twice = Driver::new(plan(8, 8));
    assert_eq!(twice.step(Event::PrioritySet), Action::Sleep(Interval::from_millis(250)));
    assert_eq!(twice.step(Event::PrioritySet), Action::Abort);
    assert_eq!(twice.phase(), Phase::Aborted);
    assert_eq!(twice.total_bytes(), 16);
    assert_eq!(twice.step(Event::Slept), Action::Abort);
    assert_eq!(twice.total_bytes(), 16);
}
