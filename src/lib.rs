//! Timing core of a live race-timing application: the RFID reader wire
//! protocol, the device session state machine, the durable event log index and
//! the race engine with its rankings.
pub mod commands;
pub mod race;
pub mod race_events;
pub mod racer_order;
pub mod ranking;
pub mod restclient;
pub mod rfid_reader;
pub mod roster;
pub mod session;
pub mod sorter;
pub mod text;
pub mod time_utils;
