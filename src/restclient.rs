//! Records exchanged with the race registration service: races, roster
//! entries and submitted results. Fetching and posting them is left to the
//! caller.
use crate::text::{compare_text, text_cmp};
use crate::time_utils::Timestamp;
use std::cmp::Ordering;
use vstd::prelude::*;

verus! {

/// A race offered by the service.
#[derive(Debug, Clone, PartialEq)]
pub struct Race {
    pub id: u32,
    pub name: String,
    pub description: Option<String>,
    pub date_of_event: Timestamp,
}

/// A roster entry as the service sends it.
#[derive(Debug, Clone, PartialEq)]
pub struct Racer {
    pub id: u32,
    pub first_name: String,
    pub last_name: String,
    pub start_number: Option<u32>,
    pub categories: Vec<Category>,
    pub tag_id: Option<String>,
    pub track: Track,
}

/// A category as the service sends it.
#[derive(Debug, Clone, PartialEq, Eq, Hash)]
pub struct Category {
    pub id: u32,
    pub name: String,
    pub description: Option<String>,
}

/// A track as the service sends it.
#[derive(Debug, Clone, PartialEq, Eq, Hash)]
pub struct Track {
    pub id: u32,
    pub name: String,
    pub description: Option<String>,
}

/// One result submitted to the service.
#[derive(Debug, Clone, Copy, PartialEq, Eq, Structural)]
pub struct RacerResult {
    pub registration_id: u32,
    pub start_time: Timestamp,
    pub finish_time: Timestamp,
}

/// A column of the race list.
#[derive(Copy, Clone, Debug, PartialEq, Eq, Hash, Structural)]
pub enum RaceField {
    Id,
    Name,
    DateOfEvent,
}

/// Three-way order of two integers.
pub open spec fn int_cmp(a: int, b: int) -> Ordering {
    if a < b {
        Ordering::Less
    } else if a == b {
        Ordering::Equal
    } else {
        Ordering::Greater
    }
}

/// Three-way order of two timestamps, earliest first.
pub open spec fn timestamp_cmp(a: Timestamp, b: Timestamp) -> Ordering {
    if a.secs != b.secs {
        int_cmp(a.secs as int, b.secs as int)
    } else {
        int_cmp(a.nanos as int, b.nanos as int)
    }
}

/// Three-way comparison of two integers.
pub fn cmp_u64(a: u64, b: u64) -> (r: Ordering)
    ensures
        r == int_cmp(a as int, b as int),
{
    if a < b {
        Ordering::Less
    } else if a == b {
        Ordering::Equal
    } else {
        Ordering::Greater
    }
}

/// Three-way comparison of two timestamps, earliest first.
pub fn cmp_timestamp(a: &Timestamp, b: &Timestamp) -> (r: Ordering)
    ensures
        r == timestamp_cmp(*a, *b),
{
    if a.secs != b.secs {
        if a.secs < b.secs {
            Ordering::Less
        } else {
            Ordering::Greater
        }
    } else {
        cmp_u64(a.nanos as u64, b.nanos as u64)
    }
}

impl Race {
    /// Orders two races by the given column.
    pub fn cmp_by(&self, other: &Self, field: RaceField) -> (r: Ordering)
        ensures
            r == match field {
                RaceField::Id => int_cmp(self.id as int, other.id as int),
                RaceField::Name => text_cmp(self.name@, other.name@),
                RaceField::DateOfEvent => timestamp_cmp(self.date_of_event, other.date_of_event),
            },
    {
        match field {
            RaceField::Id => cmp_u64(self.id as u64, other.id as u64),
            RaceField::Name => compare_text(self.name.as_str(), other.name.as_str()),
            RaceField::DateOfEvent => cmp_timestamp(&self.date_of_event, &other.date_of_event),
        }
    }
}

} // verus!
