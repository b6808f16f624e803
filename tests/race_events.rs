use rustpolnak::race::StartNumber;
use rustpolnak::race_events::{RaceEvents, TimingEvent};
use rustpolnak::time_utils::Timestamp;

fn at(secs: i64) -> Timestamp {
    Timestamp { secs, nanos: 0 }
}

fn sample_log() -> Vec<TimingEvent> {
    vec![
        TimingEvent::TrackStart { track: "1 Elite".into(), start: at(100) },
        TimingEvent::RacerFinish { start_number: StartNumber(5), finish: Some(at(150)) },
        TimingEvent::RacerFinish { start_number: StartNumber(6), finish: Some(at(160)) },
        TimingEvent::TrackStart { track: "1 Elite".into(), start: at(110) },
        TimingEvent::TrackStart { track: "2 Open".into(), start: at(120) },
        TimingEvent::RacerFinish { start_number: StartNumber(6), finish: None },
    ]
}

#[test]
fn cleared_finish_stays_cleared_after_reload() {
    let mut log = RaceEvents::new();
    let first = log.log_finish(StartNumber(5), Some(at(40)));
    let second = log.log_finish(StartNumber(5), None);
    assert_eq!(log.get_finish_time_for(StartNumber(5)), None);
    let reloaded = RaceEvents::load(&vec![first, second]);
    assert_eq!(reloaded.get_finish_time_for(StartNumber(5)), None);
}

#[test]
fn replaying_twice_gives_the_same_indices() {
    let events = sample_log();
    let a = RaceEvents::load(&events);
    let b = RaceEvents::load(&events);
    for n in [5, 6, 7] {
        assert_eq!(a.get_finish_time_for(StartNumber(n)), b.get_finish_time_for(StartNumber(n)));
    }
    for t in ["1 Elite", "2 Open", "3 None"] {
        assert_eq!(a.get_track_start(t), b.get_track_start(t));
    }
    let mut doubled = events.clone();
    doubled.extend(events.iter().cloned());
    let c = RaceEvents::load(&doubled);
    for n in [5, 6, 7] {
        assert_eq!(a.get_finish_time_for(StartNumber(n)), c.get_finish_time_for(StartNumber(n)));
    }
    for t in ["1 Elite", "2 Open", "3 None"] {
        assert_eq!(a.get_track_start(t), c.get_track_start(t));
    }
}

#[test]
fn later_events_supersede_earlier_ones() {
    let log = RaceEvents::load(&sample_log());
    assert_eq!(log.get_track_start("1 Elite"), Some(at(110)));
    assert_eq!(log.get_track_start("2 Open"), Some(at(120)));
    assert_eq!(log.get_track_start("3 None"), None);
    assert_eq!(log.get_finish_time_for(StartNumber(5)), Some(at(150)));
    assert_eq!(log.get_finish_time_for(StartNumber(6)), None);
    assert_eq!(log.get_finish_time_for(StartNumber(7)), None);
}

#[test]
fn log_start_returns_the_event_to_persist() {
    let mut log = RaceEvents::new();
    let e = log.log_start("4 Relay", at(7));
    assert_eq!(e, TimingEvent::TrackStart { track: "4 Relay".into(), start: at(7) });
    assert_eq!(log.get_track_start("4 Relay"), Some(at(7)));
    let mut other = RaceEvents::new();
    other.apply(&e);
    assert_eq!(other.get_track_start("4 Relay"), Some(at(7)));
}
