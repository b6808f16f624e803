//! Decisions of a device session: what a supervisor emits and does next after
//! each thing that happens on its serial link. The runner that opens the
//! device, reads bytes and sleeps lives outside the library.
use crate::rfid_reader::{Cmd, Error, Frame, Tag};
use vstd::prelude::*;

verus! {

/// Baud rate of the reader's serial link.
pub const BAUD_RATE: u32 = 115200;

/// Fixed delay, in milliseconds, before a closed session is opened again.
pub const RECONNECT_DELAY_MS: u64 = 100;

/// Something a device session reports on the shared bus.
#[derive(Clone, Debug, PartialEq)]
pub enum Event {
    Connected(String),
    Disconnected { device: String, error: Error },
    Tag(String),
}

/// Where a device session stands.
#[derive(Clone, Copy, Debug, PartialEq, Eq, Structural)]
pub enum SessionState {
    Disconnected,
    Connected,
}

/// What happened on the link since the session's last step.
#[derive(Debug)]
pub enum SessionInput {
    /// The device was opened.
    Opened,
    /// Opening the device failed; the text of the I/O error.
    OpenFailed(String),
    /// A decode step on the receive buffer returned this.
    Decoded(Result<Option<Frame>, Error>),
    /// Reading from the device failed; the text of the I/O error.
    ReadFailed(String),
    /// The device's byte stream ended.
    EndOfStream,
}

/// What the runner does next.
#[derive(Clone, Copy, Debug, PartialEq, Eq, Structural)]
pub enum SessionAction {
    /// Read more bytes from the device into the receive buffer.
    Read,
    /// Run another decode step on the receive buffer.
    Decode,
    /// Drop the link, wait [`RECONNECT_DELAY_MS`], and open the device again
    /// with an empty receive buffer.
    Reopen,
}

/// One supervised serial device.
pub struct Session {
    pub path: String,
    pub state: SessionState,
}

/// The hexadecimal digits, upper case.
pub open spec fn hex_digits() -> Seq<char> {
    seq!['0', '1', '2', '3', '4', '5', '6', '7', '8', '9', 'A', 'B', 'C', 'D', 'E', 'F']
}

/// Upper-case hexadecimal text of `bytes`, two digits per byte, no separators.
pub open spec fn hex_upper(bytes: Seq<u8>) -> Seq<char>
    decreases bytes.len(),
{
    if bytes.len() == 0 {
        Seq::empty()
    } else {
        let b = bytes.last() as int;
        hex_upper(bytes.drop_last()) + seq![hex_digits()[b / 16], hex_digits()[b % 16]]
    }
}

/// The bus event for one tag read.
pub open spec fn is_tag_event(e: Event, tag: Tag) -> bool {
    e matches Event::Tag(s) && s@ == hex_upper(tag.tag_id@)
}

/// The bus events a decoded frame gives: one tag read per tag of an active tag
/// report, in wire order; none for another command.
pub open spec fn frame_events_spec(events: Seq<Event>, frame: Frame) -> bool {
    match frame.cmd {
        Cmd::ActiveData { tags, .. } => events.len() == tags@.len() && forall|i: int|
            0 <= i < events.len() ==> #[trigger] is_tag_event(events[i], tags@[i]),
        Cmd::UnknownCommand(_) => events.len() == 0,
    }
}

/// A decode error that ends the link rather than only the frame.
pub open spec fn is_link_error(e: Error) -> bool {
    e is Eof || e is IOError
}

/// Text of `b` as two upper-case hexadecimal digits appended to `out`.
fn push_hex_byte(out: &mut String, b: u8)
    ensures
        final(out)@ == old(out)@ + seq![hex_digits()[b as int / 16], hex_digits()[b as int % 16]],
{
    let ghost before = out@;
    let digits = "0123456789ABCDEF";
    proof {
        reveal_strlit("0123456789ABCDEF");
        assert(digits@ =~= hex_digits());
    }
    let hi = (b / 16) as usize;
    let lo = (b % 16) as usize;
    out.append(digits.substring_ascii(hi, hi + 1));
    out.append(digits.substring_ascii(lo, lo + 1));
    assert(out@ =~= before + seq![hex_digits()[b as int / 16], hex_digits()[b as int % 16]]);
}

/// Upper-case hexadecimal text of a tag id.
pub fn tag_hex(tag_id: &Vec<u8>) -> (r: String)
    ensures
        r@ == hex_upper(tag_id@),
{
    let mut out = String::new();
    let mut i: usize = 0;
    while i < tag_id.len()
        invariant
            i <= tag_id@.len(),
            out@ == hex_upper(tag_id@.subrange(0, i as int)),
        decreases tag_id@.len() - i,
    {
        proof {
            let s = tag_id@.subrange(0, i as int + 1);
            assert(s.drop_last() =~= tag_id@.subrange(0, i as int));
        }
        push_hex_byte(&mut out, tag_id[i]);
        i = i + 1;
    }
    assert(tag_id@.subrange(0, tag_id@.len() as int) =~= tag_id@);
    out
}

/// The bus events of one decoded frame.
pub fn frame_events(frame: &Frame) -> (r: Vec<Event>)
    ensures
        frame_events_spec(r@, *frame),
{
    let mut events: Vec<Event> = Vec::new();
    match &frame.cmd {
        Cmd::ActiveData { tags, .. } => {
            let mut i: usize = 0;
            while i < tags.len()
                invariant
                    i <= tags@.len(),
                    events@.len() == i,
                    forall|j: int| 0 <= j < i ==> #[trigger] is_tag_event(events@[j], tags@[j]),
                decreases tags@.len() - i,
            {
                let s = tag_hex(&tags[i].tag_id);
                events.push(Event::Tag(s));
                i = i + 1;
            }
        },
        Cmd::UnknownCommand(_) => {},
    }
    events
}

impl Session {
    /// A session for the device at `path`, not yet connected.
    pub fn new(path: String) -> (r: Session)
        ensures
            r.path == path,
            r.state == SessionState::Disconnected,
    {
        Session { path, state: SessionState::Disconnected }
    }

    /// Applies what happened on the link: returns the events to publish and
    /// what to do next. Opening emits `Connected`; a failed open, a failed read,
    /// the end of the stream, or a link error emit `Disconnected` with the
    /// cause and ask for a reopen after the fixed delay; a decoded frame emits
    /// its tag reads; a framing error is dropped and decoding goes on.
    pub fn step(&mut self, input: SessionInput) -> (r: (Vec<Event>, SessionAction))
        ensures
            final(self).path == old(self).path,
            match input {
                SessionInput::Opened => {
                    &&& final(self).state == SessionState::Connected
                    &&& r.1 == SessionAction::Read
                    &&& r.0@.len() == 1
                    &&& r.0@[0] matches Event::Connected(p) && p == old(self).path
                },
                SessionInput::OpenFailed(msg) => {
                    &&& final(self).state == SessionState::Disconnected
                    &&& r.1 == SessionAction::Reopen
                    &&& r.0@ == seq![
                        Event::Disconnected { device: old(self).path, error: Error::IOError(msg) },
                    ]
                },
                SessionInput::ReadFailed(msg) => {
                    &&& final(self).state == SessionState::Disconnected
                    &&& r.1 == SessionAction::Reopen
                    &&& r.0@ == seq![
                        Event::Disconnected { device: old(self).path, error: Error::IOError(msg) },
                    ]
                },
                SessionInput::EndOfStream => {
                    &&& final(self).state == SessionState::Disconnected
                    &&& r.1 == SessionAction::Reopen
                    &&& r.0@ == seq![
                        Event::Disconnected { device: old(self).path, error: Error::Eof },
                    ]
                },
                SessionInput::Decoded(Ok(None)) => {
                    &&& final(self).state == old(self).state
                    &&& r.1 == SessionAction::Read
                    &&& r.0@.len() == 0
                },
                SessionInput::Decoded(Ok(Some(frame))) => {
                    &&& final(self).state == old(self).state
                    &&& r.1 == SessionAction::Decode
                    &&& frame_events_spec(r.0@, frame)
                },
                SessionInput::Decoded(Err(e)) => if is_link_error(e) {
                    &&& final(self).state == SessionState::Disconnected
                    &&& r.1 == SessionAction::Reopen
                    &&& r.0@ == seq![Event::Disconnected { device: old(self).path, error: e }]
                } else {
                    &&& final(self).state == old(self).state
                    &&& r.1 == SessionAction::Decode
                    &&& r.0@.len() == 0
                },
            },
    {
        match input {
            SessionInput::Opened => {
                self.state = SessionState::Connected;
                (vec![Event::Connected(self.path.clone())], SessionAction::Read)
            },
            SessionInput::OpenFailed(msg) => self.disconnect(Error::IOError(msg)),
            SessionInput::ReadFailed(msg) => self.disconnect(Error::IOError(msg)),
            SessionInput::EndOfStream => self.disconnect(Error::Eof),
            SessionInput::Decoded(Ok(None)) => (Vec::new(), SessionAction::Read),
            SessionInput::Decoded(Ok(Some(frame))) => (frame_events(&frame), SessionAction::Decode),
            SessionInput::Decoded(Err(e)) => {
                match e {
                    Error::Eof => self.disconnect(e),
                    Error::IOError(_) => self.disconnect(e),
                    _ => (Vec::new(), SessionAction::Decode),
                }
            },
        }
    }

    fn disconnect(&mut self, error: Error) -> (r: (Vec<Event>, SessionAction))
        ensures
            final(self).path == old(self).path,
            final(self).state == SessionState::Disconnected,
            r.1 == SessionAction::Reopen,
            r.0@ == seq![Event::Disconnected { device: old(self).path, error }],
    {
        self.state = SessionState::Disconnected;
        let events = vec![Event::Disconnected { device: self.path.clone(), error }];
        (events, SessionAction::Reopen)
    }
}

} // verus!
