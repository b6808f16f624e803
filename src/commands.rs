//! The single consumer of the race: what each operator command and each
//! device event does to the race and to the device indicators. The loop that
//! waits on both sources, takes the time and writes the log lives outside the
//! library.
use crate::race::{
    finish_outcome, first_match, start_done, started_with_number, unfinished_with_tag,
    with_number, FinishError, Race, StartNumber, Track,
};
use crate::race_events::TimingEvent;
use crate::session::Event;
use crate::time_utils::Timestamp;
use vstd::prelude::*;

verus! {

/// A command an operator issues.
#[derive(Debug)]
pub enum Action {
    Start(Track, Timestamp),
    FinishByStartNumber(StartNumber, Timestamp),
    FinishEdit(StartNumber, Option<Timestamp>),
}

/// Whether each configured device is connected, in configuration order.
pub struct RFIDDevices {
    pub devices: Vec<(String, bool)>,
}

/// `new` is `old` with every entry named `device` marked `connected`.
pub open spec fn devices_set(
    old: Seq<(String, bool)>,
    new: Seq<(String, bool)>,
    device: Seq<char>,
    connected: bool,
) -> bool {
    &&& new.len() == old.len()
    &&& forall|i: int|
        0 <= i < old.len() ==> #[trigger] new[i] == if old[i].0@ == device {
            (old[i].0, connected)
        } else {
            old[i]
        }
}

impl RFIDDevices {
    /// Every configured device, not yet connected.
    pub fn new(devices: &[String]) -> (r: RFIDDevices)
        ensures
            r.devices@.len() == devices@.len(),
            forall|i: int|
                0 <= i < devices@.len() ==> #[trigger] r.devices@[i] == (devices@[i], false),
    {
        let mut out: Vec<(String, bool)> = Vec::new();
        let mut i: usize = 0;
        while i < devices.len()
            invariant
                i <= devices@.len(),
                out@.len() == i,
                forall|k: int| 0 <= k < i ==> #[trigger] out@[k] == (devices@[k], false),
            decreases devices@.len() - i,
        {
            out.push((devices[i].clone(), false));
            i = i + 1;
        }
        RFIDDevices { devices: out }
    }

    /// Marks the device connected or not; returns whether it is configured
    /// (an unknown device changes nothing).
    pub fn set(&mut self, device: &str, connected_now: bool) -> (r: bool)
        ensures
            devices_set(old(self).devices@, final(self).devices@, device@, connected_now),
            r == exists|i: int| 0 <= i < old(self).devices@.len() && #[trigger] old(self).devices@[i].0@ == device@,
    {
        let name = String::from_str(device);
        let mut found = false;
        let mut i: usize = 0;
        while i < self.devices.len()
            invariant
                name@ == device@,
                self.devices@.len() == old(self).devices@.len(),
                i <= self.devices@.len(),
                forall|k: int|
                    0 <= k < i ==> #[trigger] self.devices@[k] == if old(self).devices@[k].0@ == device@ {
                        (old(self).devices@[k].0, connected_now)
                    } else {
                        old(self).devices@[k]
                    },
                forall|k: int| i <= k < self.devices@.len() ==> #[trigger] self.devices@[k] == old(self).devices@[k],
                found == exists|k: int| 0 <= k < i && #[trigger] old(self).devices@[k].0@ == device@,
            decreases self.devices@.len() - i,
        {
            if self.devices[i].0 == name {
                self.devices[i].1 = connected_now;
                found = true;
            }
            i = i + 1;
        }
        found
    }

    /// All configured devices are connected.
    pub fn is_ok(&self) -> (r: bool)
        ensures
            r == forall|i: int| 0 <= i < self.devices@.len() ==> (#[trigger] self.devices@[i]).1,
    {
        let mut i: usize = 0;
        while i < self.devices.len()
            invariant
                i <= self.devices@.len(),
                forall|k: int| 0 <= k < i ==> (#[trigger] self.devices@[k]).1,
            decreases self.devices@.len() - i,
        {
            if !self.devices[i].1 {
                return false;
            }
            i = i + 1;
        }
        true
    }
}

/// Applies one operator command to the race. On success returns the fact to
/// append to the durable log.
pub fn handle_action(race: &mut Race, action: Action) -> (r: Result<TimingEvent, FinishError>)
    requires
        old(race).wf(),
    ensures
        match action {
            Action::Start(track, time) => r matches Ok(e) && start_done(
                *old(race),
                *final(race),
                track.0@,
                time,
                e,
            ),
            Action::FinishByStartNumber(n, time) => finish_outcome(
                *old(race),
                *final(race),
                first_match(old(race).racers@, started_with_number(n)),
                Some(time),
                false,
                r,
            ),
            Action::FinishEdit(n, time) => finish_outcome(
                *old(race),
                *final(race),
                first_match(old(race).racers@, with_number(n)),
                time,
                true,
                r,
            ),
        },
{
    match action {
        Action::Start(track, time) => Ok(race.start(track, time)),
        Action::FinishByStartNumber(n, time) => race.finish_start_number(n, Some(time)),
        Action::FinishEdit(n, time) => race.edit_finish_start_number(n, time),
    }
}

/// Applies one device event: a connection change updates the indicators; a
/// tag read finishes the first started, unfinished racer with that tag at
/// `now`, and its outcome is returned.
pub fn handle_rfid_event(race: &mut Race, devices: &mut RFIDDevices, event: Event, now: Timestamp) -> (r:
    Option<Result<TimingEvent, FinishError>>)
    requires
        old(race).wf(),
    ensures
        match event {
            Event::Connected(device) => {
                &&& r is None
                &&& *final(race) == *old(race)
                &&& devices_set(old(devices).devices@, final(devices).devices@, device@, true)
            },
            Event::Disconnected { device, .. } => {
                &&& r is None
                &&& *final(race) == *old(race)
                &&& devices_set(old(devices).devices@, final(devices).devices@, device@, false)
            },
            Event::Tag(tag) => {
                &&& final(devices).devices@ == old(devices).devices@
                &&& r matches Some(res) && finish_outcome(
                    *old(race),
                    *final(race),
                    first_match(old(race).racers@, unfinished_with_tag(tag@)),
                    Some(now),
                    false,
                    res,
                )
            },
        },
{
    match event {
        Event::Connected(device) => {
            devices.set(device.as_str(), true);
            None
        },
        Event::Disconnected { device, .. } => {
            devices.set(device.as_str(), false);
            None
        },
        Event::Tag(tag) => Some(race.tag_finished(tag.as_str(), Some(now))),
    }
}

} // verus!
