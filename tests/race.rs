use rustpolnak::race::{racer_to_result, Category, FinishError, Race, Racer, RacerField, StartNumber, Track};
use rustpolnak::roster::{extract_categories, extract_tracks};
use rustpolnak::sorter::{Direction, Sorter};
use std::cmp::Ordering;
use rustpolnak::race_events::{RaceEvents, TimingEvent};
use rustpolnak::restclient;
use rustpolnak::text::leading_number;
use rustpolnak::time_utils::{
    calculate_time, format_time_delta, format_time_delta_millis, format_time_delta_secs, Timestamp,
};

fn at(secs: i64) -> Timestamp {
    Timestamp { secs, nanos: 0 }
}

fn racer(id: u32, number: u32, tag: &str, track: &Track, cats: &[&str]) -> Racer {
    Racer {
        id,
        start_number: StartNumber(number),
        tag: tag.into(),
        first_name: format!("First{id}"),
        last_name: format!("Last{id}"),
        track: track.clone(),
        track_rank: None,
        categories: cats.iter().map(|c| Category(c.to_string())).collect(),
        categories_rank: vec![],
        start: None,
        finish: None,
        time: None,
    }
}

fn roster_entry(id: u32, number: Option<u32>, tag: Option<&str>, track: &str, cats: &[&str]) -> restclient::Racer {
    restclient::Racer {
        id,
        first_name: format!("First{id}"),
        last_name: format!("Last{id}"),
        start_number: number,
        categories: cats
            .iter()
            .enumerate()
            .map(|(i, c)| restclient::Category {
                id: i as u32,
                name: c.to_string(),
                description: None,
            })
            .collect(),
        tag_id: tag.map(|t| t.to_string()),
        track: restclient::Track {
            id: 1,
            name: track.to_string(),
            description: None,
        },
    }
}

#[test]
fn test_calculate_track_rank() {
    let track = Track("Track 1".to_string());

    // define finish times
    let start = at(1_700_000_000);
    let best = at(1_700_000_010);
    let shared = at(1_700_000_015);
    let best_wrong_cat = at(1_700_000_001);

    let racers = vec![
        // 3. place with same time as 2, but higher start number
        Racer {
            id: 2,
            start_number: StartNumber(200),
            tag: "tag2".into(),
            first_name: "Bob".into(),
            last_name: "Jones".into(),
            track: track.clone(),
            categories: vec![],
            start: Some(start),
            finish: Some(shared),
            time: calculate_time(Some(start), Some(shared)),
            track_rank: None,
            categories_rank: vec![],
        },
        // 2. place
        Racer {
            id: 2,
            start_number: StartNumber(5),
            tag: "tag4".into(),
            first_name: "Liam".into(),
            last_name: "Davis".into(),
            track: track.clone(),
            categories: vec![],
            start: Some(start),
            finish: Some(shared),
            time: calculate_time(Some(start), Some(shared)),
            track_rank: None,
            categories_rank: vec![],
        },
        // Did not finish
        Racer {
            id: 3,
            start_number: StartNumber(3),
            tag: "tag3".into(),
            first_name: "Charlie".into(),
            last_name: "Brown".into(),
            track: track.clone(),
            categories: vec![],
            start: Some(start),
            finish: None,
            time: None,
            track_rank: None,
            categories_rank: vec![],
        },
        // winner with best time
        Racer {
            id: 1,
            start_number: StartNumber(50),
            tag: "tag1".into(),
            first_name: "Alice".into(),
            last_name: "Smith".into(),
            track: track.clone(),
            categories: vec![],
            start: Some(start),
            finish: Some(best),
            time: calculate_time(Some(start), Some(best)),
            track_rank: None,
            categories_rank: vec![],
        },
        // winner, but different category
        Racer {
            id: 3,
            start_number: StartNumber(30),
            tag: "tag3".into(),
            first_name: "John".into(),
            last_name: "Doe".into(),
            track: Track("Different track".to_string()),
            categories: vec![],
            start: Some(start),
            finish: Some(best_wrong_cat),
            time: calculate_time(Some(start), Some(best_wrong_cat)),
            track_rank: None,
            categories_rank: vec![],
        },
    ];

    let mut race = Race {
        id: 1,
        racers,
        categories: vec![],
        tracks: vec![track.clone()],
        log: RaceEvents::new(),
    };

    race.calculate_track_rank(&track);

    assert_eq!(Some(3), race.racers[0].track_rank);
    assert_eq!(Some(2), race.racers[1].track_rank);
    assert_eq!(None, race.racers[2].track_rank);
    assert_eq!(Some(1), race.racers[3].track_rank);
    assert_eq!(None, race.racers[4].track_rank);
}

fn elite_race() -> Race {
    let roster = vec![
        roster_entry(1, Some(50), Some("A1"), "1 Elite", &["Men"]),
        roster_entry(2, Some(5), Some("B2"), "1 Elite", &["Men", "Juniors"]),
        roster_entry(3, Some(200), Some("C3"), "1 Elite", &["Juniors"]),
        roster_entry(4, Some(7), Some("D4"), "1 Elite", &["Men"]),
    ];
    let t = at(1_000);
    let events = vec![
        TimingEvent::TrackStart { track: "1 Elite".to_string(), start: t },
        TimingEvent::RacerFinish { start_number: StartNumber(50), finish: Some(at(1_010)) },
        TimingEvent::RacerFinish { start_number: StartNumber(5), finish: Some(at(1_015)) },
        TimingEvent::RacerFinish { start_number: StartNumber(200), finish: Some(at(1_015)) },
    ];
    Race::load(9, roster, RaceEvents::load(&events))
}

#[test]
fn elite_track_ranks_break_ties_by_start_number() {
    let race = elite_race();
    let ranks: Vec<Option<u32>> = race.racers.iter().map(|r| r.track_rank).collect();
    assert_eq!(ranks, vec![Some(1), Some(2), Some(3), None]);
    assert_eq!(race.racers[0].time, Some(10_000_000_000));
    assert_eq!(race.racers[3].start, Some(at(1_000)));
    assert_eq!(race.racers[3].finish, None);
    assert_eq!(race.racers[3].time, None);
}

#[test]
fn category_ranks_follow_category_order() {
    let race = elite_race();
    let names: Vec<&str> = race.categories.iter().map(|c| c.0.as_str()).collect();
    assert_eq!(names, vec!["Juniors", "Men"]);
    assert_eq!(race.racers[0].categories_rank, vec![(Category("Men".into()), 1)]);
    assert_eq!(
        race.racers[1].categories_rank,
        vec![(Category("Juniors".into()), 1), (Category("Men".into()), 2)]
    );
    assert_eq!(race.racers[2].categories_rank, vec![(Category("Juniors".into()), 2)]);
    assert!(race.racers[3].categories_rank.is_empty());
}

#[test]
fn clearing_a_finish_shifts_later_ranks() {
    let mut race = elite_race();
    let e = race.edit_finish_start_number(StartNumber(50), None);
    assert_eq!(
        e,
        Ok(TimingEvent::RacerFinish { start_number: StartNumber(50), finish: None })
    );
    let ranks: Vec<Option<u32>> = race.racers.iter().map(|r| r.track_rank).collect();
    assert_eq!(ranks, vec![None, Some(1), Some(2), None]);
    assert!(race.racers[0].categories_rank.is_empty());
    assert_eq!(race.racers[0].time, None);
    assert_eq!(
        race.racers[1].categories_rank,
        vec![(Category("Juniors".into()), 1), (Category("Men".into()), 1)]
    );
    assert_eq!(race.log.get_finish_time_for(StartNumber(50)), None);
}

#[test]
fn reranking_twice_and_reordering_keep_ranks() {
    let mut race = elite_race();
    let before: Vec<Option<u32>> = race.racers.iter().map(|r| r.track_rank).collect();
    race.map_start_number_to_track_rank();
    race.map_start_number_to_categories_rank();
    let again: Vec<Option<u32>> = race.racers.iter().map(|r| r.track_rank).collect();
    assert_eq!(before, again);

    race.racers.reverse();
    race.map_start_number_to_track_rank();
    let by_number = |race: &Race, n: u32| {
        race.racers
            .iter()
            .find(|r| r.start_number == StartNumber(n))
            .unwrap()
            .track_rank
    };
    assert_eq!(by_number(&race, 50), Some(1));
    assert_eq!(by_number(&race, 5), Some(2));
    assert_eq!(by_number(&race, 200), Some(3));
    assert_eq!(by_number(&race, 7), None);
}

#[test]
fn finish_by_start_number_and_rejections() {
    let mut race = elite_race();
    assert_eq!(
        race.finish_start_number(StartNumber(999), Some(at(1_020))),
        Err(FinishError::RacerNotFound)
    );
    assert_eq!(
        race.finish_start_number(StartNumber(50), Some(at(1_020))),
        Err(FinishError::AlreadyFinished)
    );
    assert_eq!(race.racers[0].finish, Some(at(1_010)));
    assert_eq!(
        race.finish_start_number(StartNumber(7), Some(at(1_012))),
        Ok(TimingEvent::RacerFinish { start_number: StartNumber(7), finish: Some(at(1_012)) })
    );
    let ranks: Vec<Option<u32>> = race.racers.iter().map(|r| r.track_rank).collect();
    assert_eq!(ranks, vec![Some(1), Some(3), Some(4), Some(2)]);
    assert_eq!(race.log.get_finish_time_for(StartNumber(7)), Some(at(1_012)));
}

#[test]
fn finish_needs_a_started_racer() {
    let track = Track("2 Open".into());
    let mut race = Race {
        id: 2,
        racers: vec![racer(1, 11, "T1", &track, &[])],
        categories: vec![],
        tracks: vec![track.clone()],
        log: RaceEvents::new(),
    };
    assert_eq!(
        race.finish_start_number(StartNumber(11), Some(at(10))),
        Err(FinishError::RacerNotFound)
    );
    assert_eq!(race.tag_finished("T1", Some(at(10))), Err(FinishError::RacerNotFound));
    let e = race.start(track.clone(), at(5));
    assert_eq!(e, TimingEvent::TrackStart { track: "2 Open".into(), start: at(5) });
    assert_eq!(race.racers[0].start, Some(at(5)));
    assert_eq!(race.log.get_track_start("2 Open"), Some(at(5)));
    assert_eq!(race.tracks_with_start(), vec![(track.clone(), Some(at(5)))]);
    assert!(race.tag_finished("T1", Some(at(10))).is_ok());
    assert_eq!(race.racers[0].finish, Some(at(10)));
    assert_eq!(race.racers[0].time, Some(5_000_000_000));
    assert_eq!(race.racers[0].track_rank, Some(1));
    // a tag read never overwrites a finish
    assert_eq!(race.tag_finished("T1", Some(at(12))), Err(FinishError::RacerNotFound));
    // an edit does
    assert!(race.edit_finish_start_number(StartNumber(11), Some(at(12))).is_ok());
    assert_eq!(race.racers[0].finish, Some(at(12)));
}

#[test]
fn restart_recomputes_elapsed_time() {
    let track = Track("Kids".into());
    let mut race = Race {
        id: 3,
        racers: vec![racer(1, 1, "K1", &track, &[]), racer(2, 2, "K2", &track, &[])],
        categories: vec![],
        tracks: vec![track.clone()],
        log: RaceEvents::new(),
    };
    race.start(track.clone(), at(100));
    race.finish_start_number(StartNumber(2), Some(at(130))).unwrap();
    assert_eq!(race.racers[1].time, Some(30_000_000_000));
    race.start(track.clone(), at(110));
    assert_eq!(race.racers[1].time, Some(20_000_000_000));
    assert_eq!(race.racers[1].track_rank, Some(1));
    assert_eq!(race.racers[0].track_rank, None);
}

#[test]
fn tracks_sorted_by_leading_number() {
    let roster = vec![
        roster_entry(1, None, None, "10 Marathon", &[]),
        roster_entry(2, None, None, "2 Half", &[]),
        roster_entry(3, None, None, "Kids", &[]),
        roster_entry(4, None, None, "2 Half", &[]),
        roster_entry(5, None, None, " 1 Sprint", &[]),
    ];
    let tracks = extract_tracks(&roster);
    let names: Vec<&str> = tracks.iter().map(|t| t.0.as_str()).collect();
    assert_eq!(names, vec!["Kids", " 1 Sprint", "2 Half", "10 Marathon"]);
}

#[test]
fn categories_sorted_and_unique() {
    let roster = vec![
        roster_entry(1, None, None, "A", &["Women", "Masters"]),
        roster_entry(2, None, None, "A", &["Men", "Women"]),
        roster_entry(3, None, None, "A", &[]),
    ];
    let cats = extract_categories(&roster);
    let names: Vec<&str> = cats.iter().map(|c| c.0.as_str()).collect();
    assert_eq!(names, vec!["Masters", "Men", "Women"]);
}

#[test]
fn missing_start_number_and_tag_load_as_zero_and_empty() {
    let roster = vec![roster_entry(8, None, None, "3 Trail", &[])];
    let events = vec![TimingEvent::RacerFinish { start_number: StartNumber(0), finish: Some(at(5)) }];
    let race = Race::load(4, roster, RaceEvents::load(&events));
    assert_eq!(race.racers[0].start_number, StartNumber(0));
    assert_eq!(race.racers[0].tag, "");
    assert_eq!(race.racers[0].finish, None);
    assert_eq!(race.racers[0].start, None);
    assert_eq!(race.tracks, vec![Track("3 Trail".into())]);
}

#[test]
fn results_skip_racers_without_start_or_finish() {
    let race = elite_race();
    let results = race.results();
    assert_eq!(results.len(), 3);
    assert_eq!(results[0].registration_id, 1);
    assert_eq!(results[0].start_time, at(1_000));
    assert_eq!(results[0].finish_time, at(1_010));
    assert_eq!(results[2].registration_id, 3);
    assert_eq!(racer_to_result(&race.racers[3]), None);
}

#[test]
fn start_number_parsing() {
    assert_eq!(StartNumber::parse("42").unwrap(), StartNumber(42));
    assert_eq!(StartNumber::parse("+7").unwrap(), StartNumber(7));
    assert_eq!("4294967295".parse::<StartNumber>().unwrap(), StartNumber(u32::MAX));
    assert!(StartNumber::parse("4294967296").is_err());
    assert!(StartNumber::parse("").is_err());
    assert!(StartNumber::parse("-1").is_err());
    assert!(StartNumber::parse(" 5").is_err());
    assert!("x5".parse::<StartNumber>().is_err());
}

#[test]
fn leading_numbers_of_track_names() {
    assert_eq!(leading_number("1 Elite"), 1);
    assert_eq!(leading_number("  23\tLong"), 23);
    assert_eq!(leading_number("Elite 1"), 0);
    assert_eq!(leading_number("5km"), 0);
    assert_eq!(leading_number(""), 0);
    assert_eq!(leading_number("99999999999 Big"), 0);
}

#[test]
fn elapsed_time_in_nanoseconds() {
    let s = Timestamp { secs: 10, nanos: 900_000_000 };
    let f = Timestamp { secs: 12, nanos: 100_000_000 };
    assert_eq!(calculate_time(Some(s), Some(f)), Some(1_200_000_000));
    assert_eq!(calculate_time(Some(f), Some(s)), Some(-1_200_000_000));
    assert_eq!(calculate_time(None, Some(f)), None);
    assert!(s.is_before(&f));
    assert!(!f.is_before(&s));
}

#[test]
fn racers_compare_by_column() {
    let track = Track("1 Elite".into());
    let mut a = racer(1, 5, "A", &track, &[]);
    let mut b = racer(2, 40, "B", &track, &[]);
    assert_eq!(a.cmp_by(&b, RacerField::StartNumber), Ordering::Less);
    assert_eq!(a.cmp_by(&b, RacerField::TagId), Ordering::Less);
    assert_eq!(b.cmp_by(&a, RacerField::FirstName), Ordering::Greater);
    assert_eq!(a.cmp_by(&b, RacerField::Track), Ordering::Equal);
    a.track_rank = Some(3);
    assert_eq!(a.cmp_by(&b, RacerField::TrackRank), Ordering::Less);
    b.track_rank = Some(2);
    assert_eq!(a.cmp_by(&b, RacerField::TrackRank), Ordering::Greater);
    assert_eq!(a.cmp_by(&b, RacerField::Finish), Ordering::Equal);
    b.finish = Some(at(9));
    assert_eq!(a.cmp_by(&b, RacerField::Finish), Ordering::Less);
    a.finish = Some(at(8));
    assert_eq!(a.cmp_by(&b, RacerField::Finish), Ordering::Less);
    a.time = Some(5);
    assert_eq!(a.cmp_by(&b, RacerField::Time), Ordering::Greater);
    b.time = Some(4);
    assert_eq!(a.cmp_by(&b, RacerField::Time), Ordering::Greater);
    assert_eq!(a.cmp_by(&b, RacerField::Start), Ordering::Equal);
}

#[test]
fn category_ranks_compare_by_first_differing_category() {
    let track = Track("1 Elite".into());
    let mut a = racer(1, 5, "A", &track, &[]);
    let mut b = racer(2, 6, "B", &track, &[]);
    assert_eq!(a.cmp_by(&b, RacerField::CategoriesRank), Ordering::Equal);
    a.categories_rank = vec![(Category("Men".into()), 2), (Category("Juniors".into()), 4)];
    b.categories_rank = vec![(Category("Juniors".into()), 1), (Category("Men".into()), 2)];
    // "Juniors" sorts before "Men": 4 against 1
    assert_eq!(a.cmp_by(&b, RacerField::CategoriesRank), Ordering::Greater);
    b.categories_rank = vec![(Category("Men".into()), 1)];
    // a ranked in "Juniors", b not
    assert_eq!(a.cmp_by(&b, RacerField::CategoriesRank), Ordering::Less);
    b.categories_rank = vec![(Category("Juniors".into()), 4), (Category("Men".into()), 2)];
    assert_eq!(a.cmp_by(&b, RacerField::CategoriesRank), Ordering::Equal);
}

#[test]
fn sorter_toggles_and_reverses_the_active_column() {
    let track = Track("1 Elite".into());
    let a = racer(1, 5, "A", &track, &[]);
    let b = racer(2, 40, "B", &track, &[]);
    let mut sorter = Sorter::new(RacerField::StartNumber);
    assert_eq!(sorter.direction, Direction::Asc);
    assert_eq!(sorter.cmp_by(&a, &b, RacerField::StartNumber, Racer::cmp_by), Ordering::Less);
    sorter.toggle(RacerField::StartNumber);
    assert_eq!(sorter.direction, Direction::Desc);
    assert_eq!(sorter.cmp_by(&a, &b, RacerField::StartNumber, Racer::cmp_by), Ordering::Greater);
    // another column compares as it is
    assert_eq!(sorter.cmp_by(&a, &b, RacerField::TagId, Racer::cmp_by), Ordering::Less);
    sorter.toggle(RacerField::LastName);
    assert_eq!(sorter.active, RacerField::LastName);
    assert_eq!(sorter.direction, Direction::Asc);
    sorter.toggle(RacerField::LastName);
    assert_eq!(sorter.direction, Direction::Desc);
}

// Two ranked racers with the same finish and the same start number keep their
// list order; swapping them swaps their ranks.
#[test]
fn full_ties_rank_in_list_order() {
    let track = Track("Kids".into());
    let mut first = racer(1, 0, "", &track, &[]);
    let mut second = racer(2, 0, "", &track, &[]);
    for r in [&mut first, &mut second] {
        r.start = Some(at(0));
        r.finish = Some(at(30));
    }
    let mut race = Race {
        id: 7,
        racers: vec![first, second],
        categories: vec![],
        tracks: vec![track.clone()],
        log: RaceEvents::new(),
    };
    race.map_start_number_to_track_rank();
    assert_eq!(race.racers[0].id, 1);
    assert_eq!(race.racers[0].track_rank, Some(1));
    assert_eq!(race.racers[1].track_rank, Some(2));
    race.racers.swap(0, 1);
    race.map_start_number_to_track_rank();
    assert_eq!(race.racers[0].id, 2);
    assert_eq!(race.racers[0].track_rank, Some(1));
    assert_eq!(race.racers[1].track_rank, Some(2));
}

#[test]
fn elapsed_time_text() {
    let t = 3_723_456_000_000i128; // 1 h 2 min 3.456 s
    assert_eq!(format_time_delta_millis(Some(t)), "01:02:03.456");
    assert_eq!(format_time_delta_secs(Some(t)), "01:02:03");
    assert_eq!(format_time_delta(Some(t + 999_999), true), "01:02:03.456");
    assert_eq!(format_time_delta_millis(Some(360_000_000_000_000)), "100:00:00.000");
    assert_eq!(format_time_delta_millis(Some(5_000_000)), "00:00:00.005");
    assert_eq!(format_time_delta_millis(Some(-1_500_000_000)), "00:00:-1.-500");
    assert_eq!(format_time_delta_millis(Some(-5_000_000)), "00:00:00.-05");
    assert_eq!(format_time_delta_secs(None), "");
}
