//! The race aggregate: roster entries enriched with start, finish, elapsed
//! time and rankings, and the commands that change them.
use crate::race_events::{apply_spec, EventIndex, RaceEvents, TimingEvent};
use crate::ranking::{
    category_ranks_spec, in_group, in_group_exec, is_ranked, lemma_clear_finish_shifts_ranks,
    lemma_count_ahead_bound, lemma_precedes_iff_lower_rank, lemma_ranks_depend_on_entries_only, precedes, rank_of, rank_spec,
    ranked, ranks_consistent, same_entries, same_entry, track_rank_spec, Group, GroupKey,
};
use crate::restclient;
use crate::roster::{categories_extracted, extract_categories, extract_tracks, tracks_extracted};
use crate::text::{decimal_u32, parse_u32};
use crate::time_utils::{calculate_time, elapsed_spec, Timestamp};
use std::num::ParseIntError;
use vstd::prelude::*;

verus! {

/// A racer's bib number, unique within a race.
#[derive(Clone, Copy, Debug, PartialEq, Eq, Hash, Structural)]
pub struct StartNumber(pub u32);

impl StartNumber {
    /// Reads a start number typed by a user: an optional `+` and decimal
    /// digits, of a value that fits a `u32`.
    pub fn parse(s: &str) -> (r: Result<StartNumber, ParseIntError>)
        ensures
            match decimal_u32(s@) {
                Some(v) => r == Ok::<StartNumber, ParseIntError>(StartNumber(v)),
                None => r is Err,
            },
    {
        match parse_u32(s) {
            Ok(v) => Ok(StartNumber(v)),
            Err(e) => Err(e),
        }
    }
}

impl std::str::FromStr for StartNumber {
    type Err = ParseIntError;

    fn from_str(s: &str) -> Result<StartNumber, ParseIntError> {
        StartNumber::parse(s)
    }
}

/// A named cross-track grouping with its own ranking.
#[derive(Clone, Debug, PartialEq, Eq, Hash)]
pub struct Category(pub String);

/// A named group of racers that share one start time.
#[derive(Clone, Debug, PartialEq, Eq, Hash)]
pub struct Track(pub String);

/// A roster entry with its timing and rankings.
#[derive(Clone, Debug, PartialEq)]
pub struct Racer {
    pub id: u32,
    pub start_number: StartNumber,
    pub tag: String,
    pub first_name: String,
    pub last_name: String,
    pub track: Track,
    pub track_rank: Option<u32>,
    pub categories: Vec<Category>,
    /// Rank in each of the racer's categories, in the race's category order.
    pub categories_rank: Vec<(Category, u32)>,
    pub start: Option<Timestamp>,
    pub finish: Option<Timestamp>,
    /// Nanoseconds from start to finish.
    pub time: Option<i128>,
}

/// A column of the racer table.
#[derive(Copy, Clone, Debug, PartialEq, Eq, Hash, Structural)]
pub enum RacerField {
    StartNumber,
    FirstName,
    LastName,
    TagId,
    Track,
    TrackRank,
    CategoriesRank,
    Start,
    Finish,
    Time,
}

/// The race aggregate together with the indices of its event log.
pub struct Race {
    pub id: u32,
    pub racers: Vec<Racer>,
    pub categories: Vec<Category>,
    pub tracks: Vec<Track>,
    pub log: RaceEvents,
}

/// Why a finish command was rejected; the race is left as it was.
#[derive(Clone, Copy, Debug, PartialEq, Eq, Structural)]
pub enum FinishError {
    /// No racer fits the command.
    RacerNotFound,
    /// The racer already has a finish; it must be cleared first.
    AlreadyFinished,
}

/// `b` is `a` with its start set to `t` and its elapsed time recomputed; ranks
/// aside, nothing else differs.
pub open spec fn start_changed(a: Racer, b: Racer, t: Timestamp) -> bool {
    same_entry(Racer { start: Some(t), time: elapsed_spec(Some(t), a.finish), ..a }, b)
}

/// `b` is `a` with its finish set to `t` (cleared for `None`) and its elapsed
/// time recomputed; ranks aside, nothing else differs.
pub open spec fn finish_changed(a: Racer, b: Racer, t: Option<Timestamp>) -> bool {
    same_entry(Racer { finish: t, time: elapsed_spec(a.start, t), ..a }, b)
}

/// Racer `i` is the first in `rs` that `p` accepts.
pub open spec fn is_first(rs: Seq<Racer>, p: spec_fn(Racer) -> bool, i: int) -> bool {
    0 <= i < rs.len() && p(rs[i]) && forall|j: int| 0 <= j < i ==> !p(#[trigger] rs[j])
}

/// Index of the first racer in `rs` that `p` accepts.
pub open spec fn first_match(rs: Seq<Racer>, p: spec_fn(Racer) -> bool) -> Option<int> {
    if exists|i: int| is_first(rs, p, i) {
        Some(choose|i: int| is_first(rs, p, i))
    } else {
        None
    }
}

/// A racer with this start number who has started.
pub open spec fn started_with_number(n: StartNumber) -> spec_fn(Racer) -> bool {
    |r: Racer| r.start_number == n && r.start is Some
}

/// A racer with this tag who has started and not finished.
pub open spec fn unfinished_with_tag(tag: Seq<char>) -> spec_fn(Racer) -> bool {
    |r: Racer| r.tag@ == tag && r.start is Some && r.finish is None
}

/// A racer with this start number.
pub open spec fn with_number(n: StartNumber) -> spec_fn(Racer) -> bool {
    |r: Racer| r.start_number == n
}

/// The race after a finish (or clear) of racer `i`: that racer's finish and
/// time changed, the others' entries kept, every rank recomputed, the event
/// recorded in the log indices.
pub open spec fn finish_done(old: Race, new: Race, i: int, time: Option<Timestamp>, e: TimingEvent) -> bool {
    &&& new.wf()
    &&& new.id == old.id
    &&& new.categories == old.categories
    &&& new.tracks == old.tracks
    &&& new.racers@.len() == old.racers@.len()
    &&& forall|j: int|
        0 <= j < old.racers@.len() && j != i ==> same_entry(#[trigger] new.racers@[j], old.racers@[j])
    &&& finish_changed(old.racers@[i], new.racers@[i], time)
    &&& ranks_consistent(new.racers@, new.categories@)
    &&& e == (TimingEvent::RacerFinish { start_number: old.racers@[i].start_number, finish: time })
    &&& new.log@ == apply_spec(old.log@, e)
}

/// The race after starting the track named `track` at `time`: every racer
/// on it has that start and a recomputed elapsed time, the others' entries are
/// kept, every rank is recomputed, and the start is recorded in the log
/// indices.
pub open spec fn start_done(old: Race, new: Race, track: Seq<char>, time: Timestamp, e: TimingEvent) -> bool {
    &&& new.wf()
    &&& new.id == old.id
    &&& new.categories == old.categories
    &&& new.tracks == old.tracks
    &&& new.racers@.len() == old.racers@.len()
    &&& forall|i: int|
        0 <= i < old.racers@.len() ==> if old.racers@[i].track.0@ == track {
            start_changed(old.racers@[i], #[trigger] new.racers@[i], time)
        } else {
            same_entry(new.racers@[i], old.racers@[i])
        }
    &&& ranks_consistent(new.racers@, new.categories@)
    &&& e matches TimingEvent::TrackStart { track: t, start } && t@ == track && start == time
    &&& new.log@ == apply_spec(old.log@, e)
}

/// Outcome of a finish command on the racer `first` picks: none found, an
/// existing finish that may not be overwritten, or the finish applied.
pub open spec fn finish_outcome(
    old: Race,
    new: Race,
    first: Option<int>,
    time: Option<Timestamp>,
    overwrite: bool,
    r: Result<TimingEvent, FinishError>,
) -> bool {
    match first {
        None => r == Err::<TimingEvent, FinishError>(FinishError::RacerNotFound) && new == old,
        Some(i) => if !overwrite && old.racers@[i].finish is Some && time is Some {
            r == Err::<TimingEvent, FinishError>(FinishError::AlreadyFinished) && new == old
        } else {
            r matches Ok(e) && finish_done(old, new, i, time, e)
        },
    }
}

/// Value an index holds for a key.
pub open spec fn lookup<K, V>(m: Map<K, V>, k: K) -> Option<V> {
    if m.contains_key(k) {
        Some(m[k])
    } else {
        None
    }
}

/// `r` is roster entry `e` as loaded against the log indices `idx`: a
/// missing start number reads as 0 and a missing tag as empty; the start is
/// the latest start of the racer's track, the finish the latest finish of its
/// start number.
pub open spec fn racer_loaded(e: restclient::Racer, idx: EventIndex, r: Racer) -> bool {
    &&& r.id == e.id
    &&& r.start_number == StartNumber(
        match e.start_number {
            Some(n) => n,
            None => 0,
        },
    )
    &&& r.tag@ == match e.tag_id {
        Some(t) => t@,
        None => Seq::<char>::empty(),
    }
    &&& r.first_name == e.first_name
    &&& r.last_name == e.last_name
    &&& r.track.0 == e.track.name
    &&& r.categories@.len() == e.categories@.len()
    &&& forall|j: int| 0 <= j < r.categories@.len() ==> #[trigger] r.categories@[j].0 == e.categories@[j].name
    &&& r.start == lookup(idx.track_starts, e.track.name@)
    &&& r.finish == match e.start_number {
        Some(n) => lookup(idx.finish_times, n),
        None => None,
    }
    &&& r.time == elapsed_spec(r.start, r.finish)
}

/// A roster entry as loaded against the log indices.
fn load_racer(e: &restclient::Racer, log: &RaceEvents) -> (r: Racer)
    requires
        log.wf(),
    ensures
        racer_loaded(*e, log@, r),
        r.track_rank is None,
        r.categories_rank@.len() == 0,
{
    let start = log.get_track_start(e.track.name.as_str());
    let finish = match e.start_number {
        Some(n) => log.get_finish_time_for(StartNumber(n)),
        None => None,
    };
    let mut categories: Vec<Category> = Vec::new();
    let mut j: usize = 0;
    while j < e.categories.len()
        invariant
            j <= e.categories@.len(),
            categories@.len() == j,
            forall|k: int| 0 <= k < j ==> #[trigger] categories@[k].0 == e.categories@[k].name,
        decreases e.categories@.len() - j,
    {
        categories.push(Category(e.categories[j].name.clone()));
        j = j + 1;
    }
    let tag = match &e.tag_id {
        Some(t) => t.clone(),
        None => String::new(),
    };
    let start_number = match e.start_number {
        Some(n) => StartNumber(n),
        None => StartNumber(0),
    };
    Racer {
        id: e.id,
        start_number,
        tag,
        first_name: e.first_name.clone(),
        last_name: e.last_name.clone(),
        track: Track(e.track.name.clone()),
        track_rank: None,
        categories,
        categories_rank: Vec::new(),
        start,
        finish,
        time: calculate_time(start, finish),
    }
}

/// The result to submit for a racer: only one with both a start and a
/// finish has one.
pub fn racer_to_result(racer: &Racer) -> (r: Option<restclient::RacerResult>)
    ensures
        r == match (racer.start, racer.finish) {
            (Some(s), Some(f)) => Some(
                restclient::RacerResult { registration_id: racer.id, start_time: s, finish_time: f },
            ),
            _ => None,
        },
{
    match (racer.start, racer.finish) {
        (Some(start_time), Some(finish_time)) => Some(
            restclient::RacerResult { registration_id: racer.id, start_time, finish_time },
        ),
        _ => None,
    }
}

/// Results of all racers that have both a start and a finish, in roster
/// order.
pub open spec fn results_spec(rs: Seq<Racer>) -> Seq<restclient::RacerResult>
    decreases rs.len(),
{
    if rs.len() == 0 {
        Seq::empty()
    } else {
        let prev = results_spec(rs.drop_last());
        let r = rs.last();
        match (r.start, r.finish) {
            (Some(s), Some(f)) => prev.push(
                restclient::RacerResult { registration_id: r.id, start_time: s, finish_time: f },
            ),
            _ => prev,
        }
    }
}

/// Which racer a finish command is for.
enum RacerQuery<'a> {
    StartedWithNumber(StartNumber),
    UnfinishedWithTag(&'a str),
    WithNumber(StartNumber),
}

impl<'a> RacerQuery<'a> {
    spec fn pred(&self) -> spec_fn(Racer) -> bool {
        match self {
            RacerQuery::StartedWithNumber(n) => started_with_number(*n),
            RacerQuery::UnfinishedWithTag(t) => unfinished_with_tag(t@),
            RacerQuery::WithNumber(n) => with_number(*n),
        }
    }
}

fn matches_query(r: &Racer, q: &RacerQuery) -> (b: bool)
    ensures
        b == (q.pred())(*r),
{
    match q {
        RacerQuery::StartedWithNumber(n) => r.start_number.0 == n.0 && r.start.is_some(),
        RacerQuery::UnfinishedWithTag(t) => {
            let tag = String::from_str(t);
            r.tag == tag && r.start.is_some() && r.finish.is_none()
        },
        RacerQuery::WithNumber(n) => r.start_number.0 == n.0,
    }
}

fn find_first(racers: &Vec<Racer>, q: &RacerQuery) -> (r: Option<usize>)
    ensures
        match r {
            Some(i) => first_match(racers@, q.pred()) == Some(i as int),
            None => first_match(racers@, q.pred()) is None,
        },
{
    let mut i: usize = 0;
    while i < racers.len()
        invariant
            i <= racers@.len(),
            forall|j: int| 0 <= j < i ==> !(q.pred())(#[trigger] racers@[j]),
        decreases racers@.len() - i,
    {
        if matches_query(&racers[i], q) {
            proof {
                assert(is_first(racers@, q.pred(), i as int));
                let k = choose|k: int| is_first(racers@, q.pred(), k);
                assert(k == i) by {
                    if k < i {
                    } else if k > i {
                        assert(!(q.pred())(racers@[i as int]));
                    }
                }
            }
            return Some(i);
        }
        i = i + 1;
    }
    proof {
        assert forall|k: int| !is_first(racers@, q.pred(), k) by {
            if 0 <= k < racers@.len() {
                assert(!(q.pred())(racers@[k]));
            }
        }
    }
    None
}

impl Race {
    /// Well-formed: the log indices are, and every rank fits in a `u32`.
    pub open spec fn wf(&self) -> bool {
        self.log.wf() && self.racers@.len() < u32::MAX
    }

    /// Builds the race from a freshly fetched roster and the indices of its
    /// replayed event log: tracks and categories are extracted, each entry is
    /// loaded with its start, finish and elapsed time, and every rank is
    /// computed.
    pub fn load(race_id: u32, api_result: Vec<restclient::Racer>, racelog: RaceEvents) -> (r: Race)
        requires
            racelog.wf(),
            api_result@.len() < u32::MAX,
        ensures
            r.wf(),
            r.id == race_id,
            r.log@ == racelog@,
            tracks_extracted(api_result@, r.tracks@),
            categories_extracted(api_result@, r.categories@),
            r.racers@.len() == api_result@.len(),
            forall|i: int|
                0 <= i < api_result@.len() ==> racer_loaded(api_result@[i], racelog@, #[trigger] r.racers@[i]),
            ranks_consistent(r.racers@, r.categories@),
    {
        let tracks = extract_tracks(api_result.as_slice());
        let categories = extract_categories(api_result.as_slice());
        let mut racers: Vec<Racer> = Vec::new();
        let mut i: usize = 0;
        while i < api_result.len()
            invariant
                racelog.wf(),
                i <= api_result@.len(),
                racers@.len() == i,
                forall|k: int| 0 <= k < i ==> racer_loaded(api_result@[k], racelog@, #[trigger] racers@[k]),
            decreases api_result@.len() - i,
        {
            racers.push(load_racer(&api_result[i], &racelog));
            i = i + 1;
        }
        let mut race = Race { id: race_id, racers, categories, tracks, log: racelog };
        let ghost before = race.racers@;
        race.rerank();
        proof {
            assert forall|k: int| 0 <= k < api_result@.len() implies racer_loaded(
                api_result@[k],
                racelog@,
                #[trigger] race.racers@[k],
            ) by {
                assert(same_entry(race.racers@[k], before[k]));
            }
        }
        race
    }

    /// Results to submit: one per racer with both a start and a finish, in
    /// roster order; racers missing either are skipped.
    pub fn results(&self) -> (r: Vec<restclient::RacerResult>)
        ensures
            r@ == results_spec(self.racers@),
    {
        let mut out: Vec<restclient::RacerResult> = Vec::new();
        let mut i: usize = 0;
        while i < self.racers.len()
            invariant
                i <= self.racers@.len(),
                out@ == results_spec(self.racers@.subrange(0, i as int)),
            decreases self.racers@.len() - i,
        {
            proof {
                assert(self.racers@.subrange(0, i + 1).drop_last() =~= self.racers@.subrange(0, i as int));
            }
            if let Some(res) = racer_to_result(&self.racers[i]) {
                out.push(res);
            }
            i = i + 1;
        }
        assert(self.racers@.subrange(0, i as int) =~= self.racers@);
        out
    }

    /// Ranks the racers on `track`: each gets its rank there when ranked,
    /// none otherwise. Other racers, and all other fields, are left alone.
    pub fn calculate_track_rank(&mut self, track: &Track)
        requires
            old(self).racers@.len() < u32::MAX,
        ensures
            final(self).id == old(self).id,
            final(self).categories == old(self).categories,
            final(self).tracks == old(self).tracks,
            final(self).log == old(self).log,
            same_entries(final(self).racers@, old(self).racers@),
            forall|i: int|
                0 <= i < old(self).racers@.len() ==> {
                    let g = Group::OnTrack(track.0@);
                    &&& (#[trigger] final(self).racers@[i]).categories_rank
                        == old(self).racers@[i].categories_rank
                    &&& final(self).racers@[i].track_rank == if in_group(old(self).racers@[i], g) {
                        if ranked(old(self).racers@[i], g) {
                            Some(rank_spec(old(self).racers@, g, i) as u32)
                        } else {
                            None
                        }
                    } else {
                        old(self).racers@[i].track_rank
                    }
                },
    {
        let g = GroupKey::OnTrack(&track.0);
        let n = self.racers.len();
        let mut ranks: Vec<Option<u32>> = Vec::new();
        let mut i: usize = 0;
        while i < n
            invariant
                n == self.racers@.len(),
                n < u32::MAX,
                i <= n,
                g.group() == Group::OnTrack(track.0@),
                ranks@.len() == i,
                forall|k: int|
                    0 <= k < i ==> #[trigger] ranks@[k] == if in_group(self.racers@[k], g.group()) {
                        if ranked(self.racers@[k], g.group()) {
                            Some(rank_spec(self.racers@, g.group(), k) as u32)
                        } else {
                            None
                        }
                    } else {
                        self.racers@[k].track_rank
                    },
            decreases n - i,
        {
            let r = if in_group_exec(&self.racers[i], &g) {
                if is_ranked(&self.racers[i], &g) {
                    Some(rank_of(&self.racers, &g, i))
                } else {
                    None
                }
            } else {
                self.racers[i].track_rank
            };
            ranks.push(r);
            i = i + 1;
        }
        self.set_track_ranks(&ranks);
    }

    /// Gives every racer the rank on its own track when it is ranked there,
    /// and none otherwise.
    pub fn map_start_number_to_track_rank(&mut self)
        requires
            old(self).racers@.len() < u32::MAX,
        ensures
            final(self).id == old(self).id,
            final(self).categories == old(self).categories,
            final(self).tracks == old(self).tracks,
            final(self).log == old(self).log,
            same_entries(final(self).racers@, old(self).racers@),
            forall|i: int|
                0 <= i < old(self).racers@.len() ==> (#[trigger] final(self).racers@[i]).track_rank
                    == track_rank_spec(old(self).racers@, i) && final(self).racers@[i].categories_rank
                    == old(self).racers@[i].categories_rank,
    {
        let n = self.racers.len();
        let mut ranks: Vec<Option<u32>> = Vec::new();
        let mut i: usize = 0;
        while i < n
            invariant
                n == self.racers@.len(),
                n < u32::MAX,
                i <= n,
                ranks@.len() == i,
                forall|k: int| 0 <= k < i ==> #[trigger] ranks@[k] == track_rank_spec(self.racers@, k),
            decreases n - i,
        {
            let g = GroupKey::OnTrack(&self.racers[i].track.0);
            let r = if is_ranked(&self.racers[i], &g) {
                Some(rank_of(&self.racers, &g, i))
            } else {
                None
            };
            ranks.push(r);
            i = i + 1;
        }
        self.set_track_ranks(&ranks);
    }

    /// Gives every racer, for each of the race's categories in order in which
    /// it is ranked, its rank there; no entry for the others.
    pub fn map_start_number_to_categories_rank(&mut self)
        requires
            old(self).racers@.len() < u32::MAX,
        ensures
            final(self).id == old(self).id,
            final(self).categories == old(self).categories,
            final(self).tracks == old(self).tracks,
            final(self).log == old(self).log,
            same_entries(final(self).racers@, old(self).racers@),
            forall|i: int|
                0 <= i < old(self).racers@.len() ==> (#[trigger] final(self).racers@[i]).track_rank
                    == old(self).racers@[i].track_rank && final(self).racers@[i].categories_rank@
                    == category_ranks_spec(old(self).categories@, old(self).racers@, i),
    {
        let n = self.racers.len();
        let mut all: Vec<Vec<(Category, u32)>> = Vec::new();
        let mut i: usize = 0;
        while i < n
            invariant
                n == self.racers@.len(),
                n < u32::MAX,
                i <= n,
                all@.len() == i,
                forall|k: int|
                    0 <= k < i ==> (#[trigger] all@[k])@ == category_ranks_spec(
                        self.categories@,
                        self.racers@,
                        k,
                    ),
            decreases n - i,
        {
            let ranks = self.category_ranks_of(i);
            all.push(ranks);
            i = i + 1;
        }
        let ghost before = self.racers@;
        let mut all = all;
        let mut i: usize = n;
        while i > 0
            invariant
                self.id == old(self).id,
                self.categories == old(self).categories,
                self.tracks == old(self).tracks,
                self.log == old(self).log,
                before == old(self).racers@,
                all@.len() == i,
                i <= n,
                n == before.len(),
                self.racers@.len() == n,
                forall|k: int|
                    0 <= k < i ==> (#[trigger] all@[k])@ == category_ranks_spec(
                        old(self).categories@,
                        before,
                        k,
                    ),
                forall|k: int|
                    0 <= k < n ==> same_entry(#[trigger] self.racers@[k], before[k])
                        && self.racers@[k].track_rank == before[k].track_rank,
                forall|k: int|
                    i <= k < n ==> (#[trigger] self.racers@[k]).categories_rank@
                        == category_ranks_spec(old(self).categories@, before, k),
            decreases i,
        {
            let ranks = all.pop().unwrap();
            i = i - 1;
            self.racers[i].categories_rank = ranks;
        }
    }

    fn category_ranks_of(&self, i: usize) -> (r: Vec<(Category, u32)>)
        requires
            i < self.racers@.len(),
            self.racers@.len() < u32::MAX,
        ensures
            r@ == category_ranks_spec(self.categories@, self.racers@, i as int),
    {
        let mut out: Vec<(Category, u32)> = Vec::new();
        let mut c: usize = 0;
        while c < self.categories.len()
            invariant
                i < self.racers@.len(),
                self.racers@.len() < u32::MAX,
                c <= self.categories@.len(),
                out@ == category_ranks_spec(
                    self.categories@.subrange(0, c as int),
                    self.racers@,
                    i as int,
                ),
            decreases self.categories@.len() - c,
        {
            proof {
                assert(self.categories@.subrange(0, c as int + 1).drop_last()
                    =~= self.categories@.subrange(0, c as int));
            }
            let name = &self.categories[c].0;
            let g = GroupKey::InCategory(name);
            if is_ranked(&self.racers[i], &g) {
                let rank = rank_of(&self.racers, &g, i);
                out.push((Category(name.clone()), rank));
            }
            c = c + 1;
        }
        assert(self.categories@.subrange(0, self.categories@.len() as int) =~= self.categories@);
        out
    }

    /// Recomputes every track and category rank from the entries.
    fn rerank(&mut self)
        requires
            old(self).racers@.len() < u32::MAX,
        ensures
            final(self).id == old(self).id,
            final(self).categories == old(self).categories,
            final(self).tracks == old(self).tracks,
            final(self).log == old(self).log,
            same_entries(final(self).racers@, old(self).racers@),
            ranks_consistent(final(self).racers@, final(self).categories@),
    {
        let ghost before = self.racers@;
        self.map_start_number_to_track_rank();
        let ghost mid = self.racers@;
        self.map_start_number_to_categories_rank();
        proof {
            assert forall|i: int| 0 <= i < self.racers@.len() implies (#[trigger] self.racers@[i]).track_rank
                == track_rank_spec(self.racers@, i) && self.racers@[i].categories_rank@
                == category_ranks_spec(self.categories@, self.racers@, i) by {
                lemma_ranks_depend_on_entries_only(self.categories@, self.racers@, before, i);
                lemma_ranks_depend_on_entries_only(self.categories@, mid, before, i);
            }
        }
    }

    /// Each track with its latest recorded start, in the race's track order.
    pub fn tracks_with_start(&self) -> (r: Vec<(Track, Option<Timestamp>)>)
        requires
            self.wf(),
        ensures
            r@.len() == self.tracks@.len(),
            forall|i: int|
                0 <= i < r@.len() ==> (#[trigger] r@[i]).0 == self.tracks@[i] && r@[i].1 == if self.log@.track_starts.contains_key(
                    self.tracks@[i].0@,
                ) {
                    Some(self.log@.track_starts[self.tracks@[i].0@])
                } else {
                    None
                },
    {
        let mut out: Vec<(Track, Option<Timestamp>)> = Vec::new();
        let mut i: usize = 0;
        while i < self.tracks.len()
            invariant
                self.wf(),
                i <= self.tracks@.len(),
                out@.len() == i,
                forall|k: int|
                    0 <= k < i ==> (#[trigger] out@[k]).0 == self.tracks@[k] && out@[k].1 == if self.log@.track_starts.contains_key(
                        self.tracks@[k].0@,
                    ) {
                        Some(self.log@.track_starts[self.tracks@[k].0@])
                    } else {
                        None
                    },
            decreases self.tracks@.len() - i,
        {
            let name = &self.tracks[i].0;
            let start = self.log.get_track_start(name.as_str());
            out.push((Track(name.clone()), start));
            i = i + 1;
        }
        out
    }

    /// Starts `track` at `time`: every racer on it gets that start and a
    /// recomputed elapsed time, every rank is recomputed, and the start is
    /// recorded. Returns the fact to append to the durable log.
    pub fn start(&mut self, track: Track, time: Timestamp) -> (r: TimingEvent)
        requires
            old(self).wf(),
        ensures
            start_done(*old(self), *final(self), track.0@, time, r),
    {
        let ghost before = self.racers@;
        let mut i: usize = 0;
        while i < self.racers.len()
            invariant
                self.wf(),
                self.id == old(self).id,
                self.categories == old(self).categories,
                self.tracks == old(self).tracks,
                self.log == old(self).log,
                before == old(self).racers@,
                self.racers@.len() == before.len(),
                i <= before.len(),
                forall|k: int|
                    0 <= k < i ==> if before[k].track.0@ == track.0@ {
                        start_changed(before[k], #[trigger] self.racers@[k], time)
                    } else {
                        same_entry(self.racers@[k], before[k])
                    },
                forall|k: int| i <= k < before.len() ==> #[trigger] self.racers@[k] == before[k],
            decreases before.len() - i,
        {
            if self.racers[i].track.0 == track.0 {
                let finish = self.racers[i].finish;
                self.racers[i].start = Some(time);
                self.racers[i].time = calculate_time(Some(time), finish);
            }
            i = i + 1;
        }
        let e = self.log.log_start(track.0.as_str(), time);
        let ghost mid = self.racers@;
        self.rerank();
        proof {
            assert forall|k: int| 0 <= k < before.len() implies if before[k].track.0@ == track.0@ {
                start_changed(before[k], #[trigger] self.racers@[k], time)
            } else {
                same_entry(self.racers@[k], before[k])
            } by {
                assert(same_entry(self.racers@[k], mid[k]));
            }
        }
        e
    }

    /// Sets or clears the finish of the first racer `q` picks.
    fn finish(&mut self, q: &RacerQuery, time: Option<Timestamp>, overwrite: bool) -> (r: Result<
        TimingEvent,
        FinishError,
    >)
        requires
            old(self).wf(),
        ensures
            finish_outcome(
                *old(self),
                *final(self),
                first_match(old(self).racers@, q.pred()),
                time,
                overwrite,
                r,
            ),
    {
        let i = match find_first(&self.racers, q) {
            Some(i) => i,
            None => {
                return Err(FinishError::RacerNotFound);
            },
        };
        if !overwrite && self.racers[i].finish.is_some() && time.is_some() {
            return Err(FinishError::AlreadyFinished);
        }
        let ghost before = self.racers@;
        let start = self.racers[i].start;
        let start_number = self.racers[i].start_number;
        self.racers[i].finish = time;
        self.racers[i].time = calculate_time(start, time);
        let e = self.log.log_finish(start_number, time);
        let ghost mid = self.racers@;
        self.rerank();
        proof {
            assert forall|j: int| 0 <= j < before.len() && j != i implies same_entry(
                #[trigger] self.racers@[j],
                before[j],
            ) by {
                assert(same_entry(self.racers@[j], mid[j]));
            }
            assert(same_entry(self.racers@[i as int], mid[i as int]));
        }
        Ok(e)
    }

    /// Finishes the first started racer with `start_number` at `time` (or
    /// clears its finish for `None`). Rejected when no such racer exists, or
    /// when it already has a finish and `time` is not `None`. On success the
    /// ranks are recomputed and the fact to append to the durable log is
    /// returned.
    pub fn finish_start_number(&mut self, start_number: StartNumber, time: Option<Timestamp>) -> (r:
        Result<TimingEvent, FinishError>)
        requires
            old(self).wf(),
        ensures
            finish_outcome(
                *old(self),
                *final(self),
                first_match(old(self).racers@, started_with_number(start_number)),
                time,
                false,
                r,
            ),
    {
        self.finish(&RacerQuery::StartedWithNumber(start_number), time, false)
    }

    /// Finishes the first started, unfinished racer with `tag` at `time`; a
    /// tag read never overwrites a finish. Rejected when no such racer exists.
    pub fn tag_finished(&mut self, tag: &str, time: Option<Timestamp>) -> (r: Result<
        TimingEvent,
        FinishError,
    >)
        requires
            old(self).wf(),
        ensures
            finish_outcome(
                *old(self),
                *final(self),
                first_match(old(self).racers@, unfinished_with_tag(tag@)),
                time,
                false,
                r,
            ),
    {
        self.finish(&RacerQuery::UnfinishedWithTag(tag), time, false)
    }

    /// Sets or clears the finish of the first racer with `start_number`,
    /// whatever it held before. Rejected only when no such racer exists.
    pub fn edit_finish_start_number(&mut self, start_number: StartNumber, time: Option<Timestamp>) -> (r:
        Result<TimingEvent, FinishError>)
        requires
            old(self).wf(),
        ensures
            finish_outcome(
                *old(self),
                *final(self),
                first_match(old(self).racers@, with_number(start_number)),
                time,
                true,
                r,
            ),
    {
        self.finish(&RacerQuery::WithNumber(start_number), time, true)
    }

    fn set_track_ranks(&mut self, ranks: &Vec<Option<u32>>)
        requires
            ranks@.len() == old(self).racers@.len(),
        ensures
            final(self).id == old(self).id,
            final(self).categories == old(self).categories,
            final(self).tracks == old(self).tracks,
            final(self).log == old(self).log,
            same_entries(final(self).racers@, old(self).racers@),
            forall|i: int|
                0 <= i < old(self).racers@.len() ==> (#[trigger] final(self).racers@[i]).track_rank
                    == ranks@[i] && final(self).racers@[i].categories_rank == old(
                    self,
                ).racers@[i].categories_rank,
    {
        let ghost before = self.racers@;
        let mut i: usize = 0;
        while i < ranks.len()
            invariant
                self.id == old(self).id,
                self.categories == old(self).categories,
                self.tracks == old(self).tracks,
                self.log == old(self).log,
                before == old(self).racers@,
                ranks@.len() == before.len(),
                self.racers@.len() == before.len(),
                i <= before.len(),
                forall|k: int|
                    0 <= k < before.len() ==> same_entry(#[trigger] self.racers@[k], before[k])
                        && self.racers@[k].categories_rank == before[k].categories_rank,
                forall|k: int| 0 <= k < i ==> (#[trigger] self.racers@[k]).track_rank == ranks@[k],
                forall|k: int| i <= k < before.len() ==> #[trigger] self.racers@[k] == before[k],
            decreases before.len() - i,
        {
            self.racers[i].track_rank = ranks[i];
            i = i + 1;
        }
    }
}

/// Clearing a finish by command, as `finish_done` describes it: the racer
/// loses its track rank and all category ranks, and every other racer keeps
/// its track rank, less one exactly when the cleared racer was ranked ahead of
/// it on its track; in numbers, a rank above the cleared racer's old rank `k`
/// moves down by one and a rank below `k` stays.
pub proof fn lemma_clear_command_track_ranks(old: Race, new: Race, i: int, e: TimingEvent, j: int)
    requires
        old.wf(),
        ranks_consistent(old.racers@, old.categories@),
        finish_done(old, new, i, None, e),
        0 <= i < old.racers@.len(),
        0 <= j < old.racers@.len(),
        j != i,
    ensures
        new.racers@[i].track_rank is None,
        new.racers@[i].categories_rank@.len() == 0,
        new.racers@[j].track_rank == match old.racers@[j].track_rank {
            None => None,
            Some(r) => Some(
                if ranked(old.racers@[i], Group::OnTrack(old.racers@[j].track.0@)) && precedes(
                    old.racers@,
                    i,
                    j,
                ) {
                    (r - 1) as u32
                } else {
                    r
                },
            ),
        },
        ({
            &&& old.racers@[j].track == old.racers@[i].track
            &&& old.racers@[i].track_rank is Some
            &&& old.racers@[j].track_rank is Some
        }) ==> {
            let k = old.racers@[i].track_rank->0;
            let r = old.racers@[j].track_rank->0;
            new.racers@[j].track_rank == Some(
                if r > k {
                    (r - 1) as u32
                } else {
                    r
                },
            )
        },
{
    let a = old.racers@;
    let b = a.update(i, new.racers@[i]);
    let g = Group::OnTrack(a[j].track.0@);
    assert(same_entries(new.racers@, b)) by {
        assert forall|x: int| 0 <= x < b.len() implies same_entry(#[trigger] new.racers@[x], b[x]) by {
            if x != i {
                assert(same_entry(new.racers@[x], a[x]));
            }
        }
    }
    lemma_ranks_depend_on_entries_only(new.categories@, new.racers@, b, j);
    lemma_ranks_depend_on_entries_only(new.categories@, new.racers@, b, i);
    lemma_clear_finish_shifts_ranks(a, b, i, g, j);
    lemma_count_ahead_bound(a, g, j, a.len() as int);
    assert((#[trigger] a[j]).track_rank == track_rank_spec(a, j));
    assert(new.racers@[i].categories_rank@ == category_ranks_spec(new.categories@, b, i));
    lemma_no_category_ranks_unfinished(new.categories@, b, i);
    if a[i].track_rank is Some && a[j].track == a[i].track && a[j].track_rank is Some {
        assert((#[trigger] a[i]).track_rank == track_rank_spec(a, i));
        lemma_count_ahead_bound(a, g, i, a.len() as int);
        lemma_precedes_iff_lower_rank(a, g, i, j);
    }
}

proof fn lemma_no_category_ranks_unfinished(cats: Seq<Category>, rs: Seq<Racer>, i: int)
    requires
        0 <= i < rs.len(),
        rs[i].finish is None,
    ensures
        category_ranks_spec(cats, rs, i).len() == 0,
    decreases cats.len(),
{
    if cats.len() > 0 {
        lemma_no_category_ranks_unfinished(cats.drop_last(), rs, i);
    }
}

} // verus!
