use bytes::BytesMut;
use rustpolnak::rfid_reader::{Cmd, Error, Frame, RFIDProtocol, Status, Tag};

#[test]
fn no_data() {
    let mut reader = RFIDProtocol {};
    let mut buf = BytesMut::new();
    let res = reader.decode(&mut buf);
    assert!(res.unwrap().is_none());
    assert!(buf.is_empty());
}

#[test]
fn one_byte_good_start() {
    let mut reader = RFIDProtocol {};
    let mut buf = BytesMut::from(&[0x43][..]);
    let res = reader.decode(&mut buf);
    assert!(res.unwrap().is_none());
    assert_eq!(buf.as_ref(), &[0x43]);
}

#[test]
fn one_byte_wrong_start() {
    let mut reader = RFIDProtocol {};
    let mut buf = BytesMut::from(&[0x11][..]);
    let res = reader.decode(&mut buf);
    assert!(res.unwrap().is_none());
    assert_eq!(buf.as_ref(), &[0x11]);
}

#[test]
fn two_bytes_good() {
    let mut reader = RFIDProtocol {};
    let mut buf = BytesMut::from(&[0x43, 0x54][..]);
    let res = reader.decode(&mut buf);
    assert!(res.unwrap().is_none());
    assert_eq!(buf.as_ref(), &[0x43, 0x54]);
}

// A header mismatch consumes exactly one byte, so that the decoder retries one
// byte later.
#[test]
fn two_bytes_bad() {
    let mut reader = RFIDProtocol {};
    let mut buf = BytesMut::from(&[0x43, 0xaa][..]);
    let res = reader.decode(&mut buf);
    assert_eq!(res.unwrap_err(), Error::InvalidHeader);
    assert_eq!(buf.as_ref(), &[0xaa]);
    let res = reader.decode(&mut buf);
    assert!(res.unwrap().is_none());
    assert_eq!(buf.as_ref(), &[0xaa]);
}

#[test]
fn incomplete_header() {
    let mut reader = RFIDProtocol {};
    let mut buf = BytesMut::from(
        &[
            0x43, 0x54, // header
            0x00, // length - just one byte
        ][..],
    );
    let res = reader.decode(&mut buf);
    assert!(res.unwrap().is_none());
    assert_eq!(buf.as_ref(), &[0x43, 0x54, 0x00]);
}

#[test]
fn incomplete_payload_header() {
    let mut reader = RFIDProtocol {};
    let mut buf = BytesMut::from(
        &[
            0x43, 0x54, // header
            0x00, 0x02, // length
            0x01, // part of payload
        ][..],
    );
    let res = reader.decode(&mut buf);
    assert!(res.unwrap().is_none());
    assert_eq!(buf.as_ref(), &[0x43, 0x54, 0x00, 0x02, 0x01]);
}

#[test]
fn wrong_crc() {
    let mut reader = RFIDProtocol {};
    let mut buf = BytesMut::from(
        &[
            0x43, 0x54, // header
            0x00, 0x1c, // length
            0x00, // address
            0x45, // command
            0x01, // status
            0xc3, 0x85, 0x14, 0x01, 0x02, 0x01, 0xa4, 0x01, 0x0f, 0x01, 0x01, 0x85, 0x13, 0x33,
            0x6d, 0xb6, 0x2d, 0x6d, 0xc2, 0xd4, 0x20, 0x6c, 0xe7, 0xbc, // payload
            0x11, // wrong crc
        ][..],
    );
    let res = reader.decode(&mut buf);
    assert_eq!(
        res.unwrap_err(),
        Error::WrongChecksum {
            received: 0x11,
            expected: 0xa4
        }
    );
    assert!(buf.is_empty());
}

#[test]
fn unknown_command() {
    let mut reader = RFIDProtocol {};
    let mut buf = BytesMut::from(
        &[
            0x43, 0x54, // header
            0x00, 0x04, // length
            0x00, // address
            0x42, // command
            0x01, // status
            0x22, // crc
        ][..],
    );
    let res = reader.decode(&mut buf);
    assert_eq!(
        res.unwrap().unwrap(),
        Frame {
            cmd: Cmd::UnknownCommand(0x42),
            status: Status::Success,
            addr: 0,
        }
    );
    assert!(buf.is_empty());
}

#[test]
fn leftover() {
    let mut reader = RFIDProtocol {};
    let mut buf = BytesMut::from(
        &[
            0x43, 0x54, // header
            0x00, 0x04, // length
            0x00, // address
            0x42, // command
            0x00, // status
            0x23, // crc
            0xAA, 0xBB, // another possible frame
        ][..],
    );
    let res = reader.decode(&mut buf);
    assert_eq!(
        res.unwrap().unwrap(),
        Frame {
            cmd: Cmd::UnknownCommand(0x42),
            status: Status::Fail,
            addr: 0,
        }
    );
    assert_eq!(buf.as_ref(), [0xAA, 0xBB]);
}

#[test]
fn active_data_one_tag() {
    let mut reader = RFIDProtocol {};
    let mut buf = BytesMut::from(
        &[
            0x43, 0x54, // header
            0x00, 0x1c, // length
            0x00, // address
            0x45, // command
            0x01, // status
            0xc3, 0x85, 0x14, 0x01, 0x02, 0x01, 0xa4, // dev_sn
            0x01, // number of tags
            0x0f, // size of tag
            0x01, // tag_type
            0x01, // ant2
            0x85, 0x13, 0x33, 0x6d, 0xb6, 0x2d, 0x6d, 0xc2, 0xd4, 0x20, 0x6c, 0xe7, // tag
            0xbc, // rssi
            0xa4, // crc
        ][..],
    );
    let res = reader.decode(&mut buf);
    assert_eq!(
        res.unwrap().unwrap(),
        Frame {
            addr: 0,
            status: Status::Success,
            cmd: Cmd::ActiveData {
                dev_sn: [0xc3, 0x85, 0x14, 0x01, 0x02, 0x01, 0xa4],
                tags: vec![Tag {
                    tag_type: 1,
                    ant2: 1,
                    rssi: 0xbc,
                    tag_id: vec![
                        0x85, 0x13, 0x33, 0x6d, 0xb6, 0x2d, 0x6d, 0xc2, 0xd4, 0x20, 0x6c, 0xe7,
                    ]
                }]
            }
        }
    );
    assert!(buf.is_empty());
}

#[test]
fn active_data_corrupted() {
    let mut reader = RFIDProtocol {};
    let mut buf = BytesMut::from(
        &[
            0x43, 0x54, // header
            0x00, 0x12, // length
            0x00, // address
            0x45, // command
            0x01, // status
            0xc3, 0x85, 0x14, 0x01, 0x02, 0x01, 0xa4, // dev_sn
            0x01, // number of tags
            0x0f, // size of tag
            0x01, // tag_type
            0x01, // ant2
            0x85, 0x13, // just one byte in tag
            0xbc, // rssi
            0xa7, // crc
        ][..],
    );
    let res = reader.decode(&mut buf);
    assert_eq!(res.unwrap_err(), Error::ParseError);
    assert!(buf.is_empty());
}

fn checksum_of(bytes: &[u8]) -> u8 {
    let sum = bytes.iter().fold(0u8, |acc, &b| acc.wrapping_add(b));
    (!sum).wrapping_add(1)
}

#[test]
fn short_buffers_agreeing_with_magic_wait_for_more() {
    for bytes in [&[][..], &[0x43][..], &[0x7f][..], &[0x43, 0x54][..], &[0x43, 0x54, 0x00][..]] {
        let mut reader = RFIDProtocol {};
        let mut buf = BytesMut::from(bytes);
        assert_eq!(reader.decode(&mut buf), Ok(None));
        assert_eq!(buf.as_ref(), bytes);
    }
}

#[test]
fn bad_magic_consumes_one_byte() {
    for bytes in [&[0x00, 0x54, 0x01][..], &[0x43, 0x43, 0x54][..], &[0x54, 0x43][..]] {
        let mut reader = RFIDProtocol {};
        let mut buf = BytesMut::from(bytes);
        assert_eq!(reader.decode(&mut buf), Err(Error::InvalidHeader));
        assert_eq!(buf.as_ref(), &bytes[1..]);
    }
}

#[test]
fn tampered_checksum_reports_both_values() {
    let good: Vec<u8> = vec![0x43, 0x54, 0x00, 0x05, 0x07, 0x10, 0x01, 0x99];
    let expected = checksum_of(&good);
    let mut frame = good.clone();
    frame.push(expected ^ 0xff);
    frame.extend_from_slice(&[0x43, 0x54]);
    let mut reader = RFIDProtocol {};
    let mut buf = BytesMut::from(&frame[..]);
    assert_eq!(
        reader.decode(&mut buf),
        Err(Error::WrongChecksum {
            received: expected ^ 0xff,
            expected
        })
    );
    assert_eq!(buf.as_ref(), &[0x43, 0x54]);
}

#[test]
fn unknown_command_keeps_following_bytes() {
    let mut frame: Vec<u8> = vec![0x43, 0x54, 0x00, 0x06, 0x09, 0x77, 0x05, 0xde, 0xad];
    frame.push(checksum_of(&frame));
    frame.extend_from_slice(&[0x01, 0x02, 0x03]);
    let mut reader = RFIDProtocol {};
    let mut buf = BytesMut::from(&frame[..]);
    assert_eq!(
        reader.decode(&mut buf),
        Ok(Some(Frame {
            cmd: Cmd::UnknownCommand(0x77),
            addr: 9,
            status: Status::Fail,
        }))
    );
    assert_eq!(buf.as_ref(), &[0x01, 0x02, 0x03]);
}

// The checksum of `43 54 00 04 00 42 01` is 0x22: with 0x22 the frame decodes
// to an unknown command with success status; with 0x23 it is rejected.
#[test]
fn example_frame_with_unknown_command() {
    let mut reader = RFIDProtocol {};
    let mut buf = BytesMut::from(&[0x43, 0x54, 0x00, 0x04, 0x00, 0x42, 0x01, 0x22][..]);
    assert_eq!(
        reader.decode(&mut buf),
        Ok(Some(Frame {
            addr: 0,
            status: Status::Success,
            cmd: Cmd::UnknownCommand(0x42),
        }))
    );
    assert!(buf.is_empty());
    let mut buf = BytesMut::from(&[0x43, 0x54, 0x00, 0x04, 0x00, 0x42, 0x01, 0x23][..]);
    assert_eq!(
        reader.decode(&mut buf),
        Err(Error::WrongChecksum {
            received: 0x23,
            expected: 0x22
        })
    );
    assert!(buf.is_empty());
}

#[test]
fn zero_length_field_is_a_checksum_error() {
    let mut reader = RFIDProtocol {};
    let mut buf = BytesMut::from(&[0x43, 0x54, 0x00, 0x00, 0x11][..]);
    assert_eq!(
        reader.decode(&mut buf),
        Err(Error::WrongChecksum {
            received: 0x00,
            expected: 0x69
        })
    );
    assert_eq!(buf.as_ref(), &[0x11]);
}

#[test]
fn tag_record_shorter_than_its_fixed_bytes_is_a_parse_error() {
    let mut frame: Vec<u8> = vec![
        0x43, 0x54, 0x00, 0x10, 0x00, 0x45, 0x01, 1, 2, 3, 4, 5, 6, 7, 0x01, 0x02, 0x01, 0x01,
        0x00,
    ];
    frame.push(checksum_of(&frame));
    let mut reader = RFIDProtocol {};
    let mut buf = BytesMut::from(&frame[..]);
    assert_eq!(reader.decode(&mut buf), Err(Error::ParseError));
    assert!(buf.is_empty());
}

#[test]
fn two_tags_and_decode_prefix() {
    let mut frame: Vec<u8> = vec![
        0x43, 0x54, 0x00, 0x17, 0x03, 0x45, 0x01, 1, 2, 3, 4, 5, 6, 7, 0x02, 0x05, 0x01, 0x02,
        0xab, 0xcd, 0x40, 0x04, 0x02, 0x01, 0x0e, 0x41,
    ];
    frame.push(checksum_of(&frame));
    let mut reader = RFIDProtocol {};
    let (consumed, res) = reader.decode_prefix(&frame);
    assert_eq!(consumed, frame.len());
    assert_eq!(
        res,
        Ok(Some(Frame {
            addr: 3,
            status: Status::Success,
            cmd: Cmd::ActiveData {
                dev_sn: [1, 2, 3, 4, 5, 6, 7],
                tags: vec![
                    Tag {
                        tag_type: 1,
                        ant2: 2,
                        rssi: 0x40,
                        tag_id: vec![0xab, 0xcd]
                    },
                    Tag {
                        tag_type: 2,
                        ant2: 1,
                        rssi: 0x41,
                        tag_id: vec![0x0e]
                    },
                ]
            }
        }))
    );
}

#[test]
fn largest_length_field_waits_for_the_whole_frame() {
    let mut bytes = vec![0x43, 0x54, 0xff, 0xff];
    bytes.extend(std::iter::repeat(0u8).take(1000));
    let mut reader = RFIDProtocol {};
    let mut buf = BytesMut::from(&bytes[..]);
    assert_eq!(reader.decode(&mut buf), Ok(None));
    assert_eq!(buf.len(), bytes.len());
}
