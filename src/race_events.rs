//! The race's durable timing facts, and the two indices that replaying them
//! from empty builds: the latest start of each track and the latest finish of
//! each start number. Writing and reading the log file is left to the caller;
//! each event is handed over as a value.
use crate::race::StartNumber;
use crate::time_utils::Timestamp;
use std::collections::HashMap;
use vstd::prelude::*;

verus! {

broadcast use vstd::std_specs::hash::group_hash_axioms;

/// One durable timing fact. A finish of `None` clears an earlier finish.
#[derive(Clone, Debug, PartialEq)]
pub enum TimingEvent {
    TrackStart { track: String, start: Timestamp },
    RacerFinish { start_number: StartNumber, finish: Option<Timestamp> },
}

/// Mathematical value of the indices: track name to its latest start, start
/// number to its latest finish.
pub struct EventIndex {
    pub track_starts: Map<Seq<char>, Timestamp>,
    pub finish_times: Map<u32, Timestamp>,
}

/// The indices after one more event: a later event for a key supersedes an
/// earlier one, and a cleared finish removes the key.
pub open spec fn apply_spec(idx: EventIndex, e: TimingEvent) -> EventIndex {
    match e {
        TimingEvent::TrackStart { track, start } => EventIndex {
            track_starts: idx.track_starts.insert(track@, start),
            finish_times: idx.finish_times,
        },
        TimingEvent::RacerFinish { start_number, finish } => EventIndex {
            track_starts: idx.track_starts,
            finish_times: match finish {
                Some(t) => idx.finish_times.insert(start_number.0, t),
                None => idx.finish_times.remove(start_number.0),
            },
        },
    }
}

/// The indices that replaying `events` from empty builds.
pub open spec fn replay_spec(events: Seq<TimingEvent>) -> EventIndex
    decreases events.len(),
{
    if events.len() == 0 {
        EventIndex { track_starts: Map::empty(), finish_times: Map::empty() }
    } else {
        apply_spec(replay_spec(events.drop_last()), events.last())
    }
}

/// Start of the last `TrackStart` for `track` in `events`, if any.
pub open spec fn last_track_start(events: Seq<TimingEvent>, track: Seq<char>) -> Option<Timestamp>
    decreases events.len(),
{
    if events.len() == 0 {
        None
    } else {
        match events.last() {
            TimingEvent::TrackStart { track: t, start } => if t@ == track {
                Some(start)
            } else {
                last_track_start(events.drop_last(), track)
            },
            _ => last_track_start(events.drop_last(), track),
        }
    }
}

/// Finish of the last `RacerFinish` for start number `n` in `events`, if
/// any (`Some(None)`: the last one cleared the finish).
pub open spec fn last_finish(events: Seq<TimingEvent>, n: u32) -> Option<Option<Timestamp>>
    decreases events.len(),
{
    if events.len() == 0 {
        None
    } else {
        match events.last() {
            TimingEvent::RacerFinish { start_number, finish } => if start_number.0 == n {
                Some(finish)
            } else {
                last_finish(events.drop_last(), n)
            },
            _ => last_finish(events.drop_last(), n),
        }
    }
}

/// Replaying a log, the last event for each key decides: a track's start is
/// that of its last start event, and a start number has a finish exactly when
/// its last finish event set one.
pub proof fn lemma_replay_last_event_wins(events: Seq<TimingEvent>, track: Seq<char>, n: u32)
    ensures
        replay_spec(events).track_starts.contains_key(track) <==> last_track_start(
            events,
            track,
        ) is Some,
        last_track_start(events, track) matches Some(t) ==> replay_spec(events).track_starts[track]
            == t,
        replay_spec(events).finish_times.contains_key(n) <==> last_finish(events, n) matches Some(
            Some(_),
        ),
        last_finish(events, n) matches Some(Some(t)) ==> replay_spec(events).finish_times[n] == t,
    decreases events.len(),
{
    if events.len() > 0 {
        lemma_replay_last_event_wins(events.drop_last(), track, n);
    }
}

proof fn lemma_last_of_concat(a: Seq<TimingEvent>, b: Seq<TimingEvent>, track: Seq<char>, n: u32)
    ensures
        last_track_start(a + b, track) == if last_track_start(b, track) is Some {
            last_track_start(b, track)
        } else {
            last_track_start(a, track)
        },
        last_finish(a + b, n) == if last_finish(b, n) is Some {
            last_finish(b, n)
        } else {
            last_finish(a, n)
        },
    decreases b.len(),
{
    if b.len() == 0 {
        assert(a + b =~= a);
    } else {
        assert((a + b).drop_last() =~= a + b.drop_last());
        lemma_last_of_concat(a, b.drop_last(), track, n);
    }
}

/// Replaying a log a second time over the indices it built changes nothing:
/// the log followed by itself builds the same indices as the log alone.
pub proof fn lemma_replay_twice_same_indices(events: Seq<TimingEvent>)
    ensures
        replay_spec(events + events) == replay_spec(events),
{
    let once = replay_spec(events);
    let twice = replay_spec(events + events);
    assert forall|k: Seq<char>| #[trigger] twice.track_starts.contains_key(k)
        == once.track_starts.contains_key(k) && (once.track_starts.contains_key(k)
        ==> twice.track_starts[k] == once.track_starts[k]) by {
        lemma_last_of_concat(events, events, k, 0);
        lemma_replay_last_event_wins(events, k, 0);
        lemma_replay_last_event_wins(events + events, k, 0);
    }
    assert forall|n: u32| #[trigger] twice.finish_times.contains_key(n)
        == once.finish_times.contains_key(n) && (once.finish_times.contains_key(n)
        ==> twice.finish_times[n] == once.finish_times[n]) by {
        lemma_last_of_concat(events, events, Seq::empty(), n);
        lemma_replay_last_event_wins(events, Seq::empty(), n);
        lemma_replay_last_event_wins(events + events, Seq::empty(), n);
    }
    assert(twice.track_starts =~= once.track_starts);
    assert(twice.finish_times =~= once.finish_times);
}

/// Track index of a list of (track, start) entries, later entries winning.
pub open spec fn starts_map(s: Seq<(String, Timestamp)>) -> Map<Seq<char>, Timestamp>
    decreases s.len(),
{
    if s.len() == 0 {
        Map::empty()
    } else {
        starts_map(s.drop_last()).insert(s.last().0@, s.last().1)
    }
}

/// No two entries name the same track.
pub open spec fn keys_unique(s: Seq<(String, Timestamp)>) -> bool {
    forall|i: int, j: int| 0 <= i < j < s.len() ==> s[i].0@ != s[j].0@
}

proof fn lemma_starts_map_at(s: Seq<(String, Timestamp)>, i: int)
    requires
        keys_unique(s),
        0 <= i < s.len(),
    ensures
        starts_map(s).contains_key(s[i].0@),
        starts_map(s)[s[i].0@] == s[i].1,
    decreases s.len(),
{
    if i < s.len() - 1 {
        lemma_starts_map_at(s.drop_last(), i);
    }
}

proof fn lemma_starts_map_absent(s: Seq<(String, Timestamp)>, k: Seq<char>)
    requires
        forall|i: int| 0 <= i < s.len() ==> s[i].0@ != k,
    ensures
        !starts_map(s).contains_key(k),
    decreases s.len(),
{
    if s.len() > 0 {
        lemma_starts_map_absent(s.drop_last(), k);
    }
}

proof fn lemma_starts_map_update(s: Seq<(String, Timestamp)>, i: int, v: Timestamp)
    requires
        keys_unique(s),
        0 <= i < s.len(),
    ensures
        starts_map(s.update(i, (s[i].0, v))) == starts_map(s).insert(s[i].0@, v),
    decreases s.len(),
{
    let u = s.update(i, (s[i].0, v));
    if i == s.len() - 1 {
        assert(u.drop_last() =~= s.drop_last());
        assert(starts_map(u) =~= starts_map(s).insert(s[i].0@, v));
    } else {
        lemma_starts_map_update(s.drop_last(), i, v);
        assert(u.drop_last() =~= s.drop_last().update(i, (s[i].0, v)));
        assert(starts_map(u) =~= starts_map(s).insert(s[i].0@, v));
    }
}

/// The indices of one race's event log.
pub struct RaceEvents {
    track_starts: Vec<(String, Timestamp)>,
    finish_times: HashMap<u32, Timestamp>,
}

impl View for RaceEvents {
    type V = EventIndex;

    closed spec fn view(&self) -> EventIndex {
        EventIndex { track_starts: starts_map(self.track_starts@), finish_times: self.finish_times@ }
    }
}

impl RaceEvents {
    /// Well-formed: no track appears twice in the track index.
    pub closed spec fn wf(&self) -> bool {
        keys_unique(self.track_starts@)
    }

    /// Empty indices.
    pub fn new() -> (r: RaceEvents)
        ensures
            r.wf(),
            r@ == replay_spec(Seq::empty()),
    {
        let r = RaceEvents { track_starts: Vec::new(), finish_times: HashMap::new() };
        assert(r@.track_starts =~= Map::empty());
        assert(r@.finish_times =~= Map::empty());
        r
    }

    /// Replays a whole log from empty.
    pub fn load(events: &Vec<TimingEvent>) -> (r: RaceEvents)
        ensures
            r.wf(),
            r@ == replay_spec(events@),
    {
        let mut log = RaceEvents::new();
        let mut i: usize = 0;
        while i < events.len()
            invariant
                i <= events@.len(),
                log.wf(),
                log@ == replay_spec(events@.subrange(0, i as int)),
            decreases events@.len() - i,
        {
            proof {
                assert(events@.subrange(0, i as int + 1).drop_last() =~= events@.subrange(
                    0,
                    i as int,
                ));
            }
            log.apply(&events[i]);
            i = i + 1;
        }
        assert(events@.subrange(0, events@.len() as int) =~= events@);
        log
    }

    /// Folds one more event into the indices.
    pub fn apply(&mut self, e: &TimingEvent)
        requires
            old(self).wf(),
        ensures
            final(self).wf(),
            final(self)@ == apply_spec(old(self)@, *e),
    {
        match e {
            TimingEvent::TrackStart { track, start } => {
                self.set_track_start(track.clone(), *start);
            },
            TimingEvent::RacerFinish { start_number, finish } => {
                match finish {
                    Some(t) => {
                        self.finish_times.insert(start_number.0, *t);
                    },
                    None => {
                        self.finish_times.remove(&start_number.0);
                    },
                }
            },
        }
    }

    fn set_track_start(&mut self, track: String, start: Timestamp)
        requires
            old(self).wf(),
        ensures
            final(self).wf(),
            final(self)@ == (EventIndex {
                track_starts: old(self)@.track_starts.insert(track@, start),
                finish_times: old(self)@.finish_times,
            }),
    {
        match self.track_index(&track) {
            Some(i) => {
                proof {
                    lemma_starts_map_update(self.track_starts@, i as int, start);
                }
                let entry = (self.track_starts[i].0.clone(), start);
                self.track_starts.set(i, entry);
            },
            None => {
                let ghost before = self.track_starts@;
                self.track_starts.push((track, start));
                assert(self.track_starts@.drop_last() =~= before);
            },
        }
    }

    fn track_index(&self, track: &String) -> (r: Option<usize>)
        ensures
            match r {
                Some(i) => i < self.track_starts@.len() && self.track_starts@[i as int].0@ == track@,
                None => forall|i: int|
                    0 <= i < self.track_starts@.len() ==> self.track_starts@[i].0@ != track@,
            },
    {
        let mut i: usize = 0;
        while i < self.track_starts.len()
            invariant
                i <= self.track_starts@.len(),
                forall|j: int| 0 <= j < i ==> self.track_starts@[j].0@ != track@,
            decreases self.track_starts@.len() - i,
        {
            if self.track_starts[i].0 == *track {
                return Some(i);
            }
            i = i + 1;
        }
        None
    }

    /// Records a finish (or, with `None`, clears it) for a start number, and
    /// returns the fact to append to the durable log.
    pub fn log_finish(&mut self, start_number: StartNumber, finish: Option<Timestamp>) -> (r:
        TimingEvent)
        requires
            old(self).wf(),
        ensures
            final(self).wf(),
            r == (TimingEvent::RacerFinish { start_number, finish }),
            final(self)@ == apply_spec(old(self)@, r),
    {
        let e = TimingEvent::RacerFinish { start_number, finish };
        self.apply(&e);
        e
    }

    /// Records a track start, and returns the fact to append to the durable
    /// log.
    pub fn log_start(&mut self, track: &str, start: Timestamp) -> (r: TimingEvent)
        requires
            old(self).wf(),
        ensures
            final(self).wf(),
            r matches TimingEvent::TrackStart { track: t, start: s } && t@ == track@ && s == start,
            final(self)@ == apply_spec(old(self)@, r),
    {
        let e = TimingEvent::TrackStart { track: String::from_str(track), start };
        self.apply(&e);
        e
    }

    /// Latest finish recorded for a start number.
    pub fn get_finish_time_for(&self, start_number: StartNumber) -> (r: Option<Timestamp>)
        ensures
            r == (if self@.finish_times.contains_key(start_number.0) {
                Some(self@.finish_times[start_number.0])
            } else {
                None
            }),
    {
        match self.finish_times.get(&start_number.0) {
            Some(t) => Some(*t),
            None => None,
        }
    }

    /// Latest start recorded for a track.
    pub fn get_track_start(&self, track: &str) -> (r: Option<Timestamp>)
        requires
            self.wf(),
        ensures
            r == (if self@.track_starts.contains_key(track@) {
                Some(self@.track_starts[track@])
            } else {
                None
            }),
    {
        let key = String::from_str(track);
        match self.track_index(&key) {
            Some(i) => {
                proof {
                    lemma_starts_map_at(self.track_starts@, i as int);
                }
                Some(self.track_starts[i].1)
            },
            None => {
                proof {
                    lemma_starts_map_absent(self.track_starts@, track@);
                }
                None
            },
        }
    }
}

} // verus!
