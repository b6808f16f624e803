use rustpolnak::restclient::{Race, RaceField};
use rustpolnak::rfid_reader::{Cmd, Error, Frame, Status, Tag};
use rustpolnak::session::{frame_events, tag_hex, Event, Session, SessionAction, SessionInput, SessionState};
use rustpolnak::text::compare_text;
use rustpolnak::time_utils::Timestamp;
use std::cmp::Ordering;

fn tag_frame(ids: Vec<Vec<u8>>) -> Frame {
    Frame {
        addr: 0,
        status: Status::Success,
        cmd: Cmd::ActiveData {
            dev_sn: [0; 7],
            tags: ids
                .into_iter()
                .map(|tag_id| Tag { tag_type: 1, ant2: 1, rssi: 0, tag_id })
                .collect(),
        },
    }
}

#[test]
fn tag_ids_are_upper_case_hex() {
    assert_eq!(tag_hex(&vec![0x85, 0x13, 0x0a, 0xff, 0x00]), "85130AFF00");
    assert_eq!(tag_hex(&vec![]), "");
}

#[test]
fn frame_events_keep_wire_order() {
    let events = frame_events(&tag_frame(vec![vec![0xab], vec![0x01, 0x02]]));
    assert_eq!(events, vec![Event::Tag("AB".into()), Event::Tag("0102".into())]);
    let unknown = Frame { addr: 1, status: Status::Fail, cmd: Cmd::UnknownCommand(3) };
    assert!(frame_events(&unknown).is_empty());
}

#[test]
fn session_connects_reads_and_reconnects() {
    let mut s = Session::new("/dev/rfid0".into());
    assert_eq!(s.state, SessionState::Disconnected);
    let (ev, act) = s.step(SessionInput::Opened);
    assert_eq!(ev, vec![Event::Connected("/dev/rfid0".into())]);
    assert_eq!(act, SessionAction::Read);
    assert_eq!(s.state, SessionState::Connected);

    let (ev, act) = s.step(SessionInput::Decoded(Ok(Some(tag_frame(vec![vec![0x12, 0x34]])))));
    assert_eq!(ev, vec![Event::Tag("1234".into())]);
    assert_eq!(act, SessionAction::Decode);

    let (ev, act) = s.step(SessionInput::Decoded(Ok(None)));
    assert!(ev.is_empty());
    assert_eq!(act, SessionAction::Read);

    let (ev, act) = s.step(SessionInput::Decoded(Err(Error::WrongChecksum { received: 1, expected: 2 })));
    assert!(ev.is_empty());
    assert_eq!(act, SessionAction::Decode);
    assert_eq!(s.state, SessionState::Connected);

    let (ev, act) = s.step(SessionInput::EndOfStream);
    assert_eq!(
        ev,
        vec![Event::Disconnected { device: "/dev/rfid0".into(), error: Error::Eof }]
    );
    assert_eq!(act, SessionAction::Reopen);
    assert_eq!(s.state, SessionState::Disconnected);

    let (ev, act) = s.step(SessionInput::OpenFailed("no such device".into()));
    assert_eq!(
        ev,
        vec![Event::Disconnected {
            device: "/dev/rfid0".into(),
            error: Error::IOError("no such device".into())
        }]
    );
    assert_eq!(act, SessionAction::Reopen);

    s.step(SessionInput::Opened);
    let (ev, act) = s.step(SessionInput::ReadFailed("broken pipe".into()));
    assert_eq!(
        ev,
        vec![Event::Disconnected {
            device: "/dev/rfid0".into(),
            error: Error::IOError("broken pipe".into())
        }]
    );
    assert_eq!(act, SessionAction::Reopen);
    assert_eq!(s.state, SessionState::Disconnected);
}

#[test]
fn races_compare_by_column() {
    let a = Race { id: 1, name: "Zlin".into(), description: None, date_of_event: Timestamp { secs: 50, nanos: 0 } };
    let b = Race { id: 2, name: "Brno".into(), description: None, date_of_event: Timestamp { secs: 50, nanos: 1 } };
    assert_eq!(a.cmp_by(&b, RaceField::Id), Ordering::Less);
    assert_eq!(a.cmp_by(&b, RaceField::Name), Ordering::Greater);
    assert_eq!(a.cmp_by(&b, RaceField::DateOfEvent), Ordering::Less);
    assert_eq!(a.cmp_by(&a, RaceField::Name), Ordering::Equal);
}

#[test]
fn text_order_is_code_point_order() {
    assert_eq!(compare_text("abc", "abd"), Ordering::Less);
    assert_eq!(compare_text("ab", "abc"), Ordering::Less);
    assert_eq!(compare_text("Zebra", "apple"), Ordering::Less);
    assert_eq!(compare_text("é", "z"), Ordering::Greater);
    assert_eq!(compare_text("same", "same"), Ordering::Equal);
}
