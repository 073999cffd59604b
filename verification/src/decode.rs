//! Decoding of single track events.
//!
//! A track event is a delta time, written as a variable-length quantity, and
//! a body. The body starts with a status byte, unless the event reuses the
//! status of the channel event before it ("running status"): then the status
//! byte is left out and the body starts with the first parameter.
//!
//! A system-exclusive marker is decoded as its status byte alone. Whatever
//! length and payload follow it in the source are not skipped, so a source
//! that holds system-exclusive data is decoded wrongly from there on.
//!
//! Every function here either succeeds or leaves the cursor, and the running
//! status, as they were.

use vstd::prelude::*;

use crate::cursor::ByteCursor;
use crate::error::MidiError;
use crate::event::ChannelEvent;
use crate::event::Event;
use crate::event::EventClass;
use crate::event::EventView;
use crate::vlq::decode_vlq;
use crate::vlq::lemma_vlq_len_bounds;
use crate::vlq::read_vlq;

verus! {

/// The outcome of decoding one event: the event, the position behind its
/// last byte, and the running status that holds after it.
pub struct Decoded {
    pub event: EventView,
    pub next: int,
    pub running: u8,
}

/// The channel event with the given delta time and status whose parameters
/// start at `pos`, and the position behind them.
///
/// The status is classified before any parameter is looked at, so an unknown
/// kind is reported even where the source has ended.
pub open spec fn channel_event_at(bytes: Seq<u8>, pos: int, delta: u32, status: u8) -> Result<
    (EventView, int),
    MidiError,
> {
    match ChannelEvent::of_status(status) {
        None => Err(MidiError::UnknownChannelEventType),
        Some(kind) => {
            let end = pos + kind.param_count();
            if end > bytes.len() {
                Err(MidiError::TruncatedInput)
            } else {
                Ok(
                    (
                        EventView {
                            class: EventClass::Channel,
                            delta,
                            status,
                            params: bytes.subrange(pos, end),
                        },
                        end,
                    ),
                )
            }
        },
    }
}

/// The meta event of type `event_type` whose length byte stands at `pos`,
/// and the position behind its payload. The payload is as long as the length
/// byte says, whatever the type.
pub open spec fn meta_event_at(bytes: Seq<u8>, pos: int, delta: u32, event_type: u8) -> Result<
    (EventView, int),
    MidiError,
> {
    if pos >= bytes.len() {
        Err(MidiError::TruncatedInput)
    } else {
        let end = pos + 1 + bytes[pos];
        if end > bytes.len() {
            Err(MidiError::TruncatedInput)
        } else {
            Ok(
                (
                    EventView {
                        class: EventClass::Meta,
                        delta,
                        status: event_type,
                        params: bytes.subrange(pos + 1, end),
                    },
                    end,
                ),
            )
        }
    }
}

/// The event whose body starts at `pos`, given its delta time and the
/// running status in force.
///
/// The byte at `pos` decides: `0xFF` opens a meta event, `0xF0` and `0xF7`
/// are system-exclusive markers, a byte below `0x80` is the first parameter
/// of a channel event under the running status, and any other byte is the
/// status of a channel event and becomes the running status.
pub open spec fn event_body_at(bytes: Seq<u8>, pos: int, delta: u32, running: u8) -> Result<
    Decoded,
    MidiError,
> {
    if pos >= bytes.len() {
        Err(MidiError::TruncatedInput)
    } else if bytes[pos] == 0xff {
        if pos + 1 >= bytes.len() {
            Err(MidiError::TruncatedInput)
        } else {
            match meta_event_at(bytes, pos + 2, delta, bytes[pos + 1]) {
                Ok((event, next)) => Ok(Decoded { event, next, running }),
                Err(e) => Err(e),
            }
        }
    } else if bytes[pos] == 0xf0 || bytes[pos] == 0xf7 {
        Ok(
            Decoded {
                event: EventView {
                    class: EventClass::SysEx,
                    delta,
                    status: 0,
                    params: Seq::empty(),
                },
                next: pos + 1,
                running,
            },
        )
    } else {
        let reused = bytes[pos] < 0x80;
        let status = if reused {
            running
        } else {
            bytes[pos]
        };
        let first = if reused {
            pos
        } else {
            pos + 1
        };
        match channel_event_at(bytes, first, delta, status) {
            Ok((event, next)) => Ok(Decoded { event, next, running: status }),
            Err(e) => Err(e),
        }
    }
}

/// The event that starts at `pos` with its delta time, given the running
/// status in force.
pub open spec fn event_at(bytes: Seq<u8>, pos: int, running: u8) -> Result<Decoded, MidiError> {
    match decode_vlq(bytes.subrange(pos, bytes.len() as int)) {
        None => Err(MidiError::TruncatedInput),
        Some((delta, n)) => event_body_at(bytes, pos + n, delta, running),
    }
}

/// A decoded event has the shape of its class, takes at least two bytes,
/// and ends inside the source.
pub proof fn lemma_event_at_bounds(bytes: Seq<u8>, pos: int, running: u8)
    requires
        0 <= pos <= bytes.len(),
    ensures
        event_at(bytes, pos, running) matches Ok(decoded) ==> {
            &&& decoded.event.wf()
            &&& pos + 2 <= decoded.next <= bytes.len()
        },
{
    lemma_vlq_len_bounds(bytes.subrange(pos, bytes.len() as int));
}

/// A body that starts with a byte below `0x80` is a channel event under the
/// running status: it has that status, takes only the parameters of its
/// kind, and leaves the running status as it is.
pub proof fn lemma_running_status(bytes: Seq<u8>, pos: int, delta: u32, running: u8)
    requires
        0 <= pos < bytes.len(),
        bytes[pos] < 0x80,
        ChannelEvent::of_status(running) matches Some(kind) && pos + kind.param_count()
            <= bytes.len(),
    ensures
        event_body_at(bytes, pos, delta, running) matches Ok(decoded) && {
            &&& decoded.event.class == EventClass::Channel
            &&& decoded.event.status == running
            &&& decoded.event.params == bytes.subrange(
                pos,
                pos + ChannelEvent::of_status(running)->Some_0.param_count(),
            )
            &&& decoded.next == pos + ChannelEvent::of_status(running)->Some_0.param_count()
            &&& decoded.running == running
        },
{
}

/// A meta event whose length byte promises more payload than the source
/// still holds is truncated, whatever its type and whatever the running
/// status.
pub proof fn lemma_meta_payload_truncated(bytes: Seq<u8>, pos: int, delta: u32, running: u8)
    requires
        0 <= pos,
        pos + 3 <= bytes.len(),
        bytes[pos] == 0xff,
        pos + 3 + bytes[pos + 2] > bytes.len(),
    ensures
        event_body_at(bytes, pos, delta, running) == Err::<Decoded, MidiError>(
            MidiError::TruncatedInput,
        ),
{
}

/// Reads the parameters of a channel event whose delta time and status are
/// known.
pub fn read_channel_event(delta: u32, status: u8, cursor: &mut ByteCursor) -> (r: Result<
    Event,
    MidiError,
>)
    ensures
        final(cursor).bytes() == old(cursor).bytes(),
        match channel_event_at(
            old(cursor).bytes(),
            old(cursor).position() as int,
            delta,
            status,
        ) {
            Ok((event, next)) => {
                &&& r matches Ok(ev)
                &&& ev@ == event
                &&& final(cursor).position() == next
            },
            Err(e) => r == Err::<Event, MidiError>(e) && final(cursor).position() == old(
                cursor,
            ).position(),
        },
{
    match ChannelEvent::from_status(status) {
        None => Err(MidiError::UnknownChannelEventType),
        Some(kind) => {
            match cursor.read_exact(kind.param_len()) {
                Ok(params) => Ok(Event { class: EventClass::Channel, delta, status, params }),
                Err(e) => Err(e),
            }
        },
    }
}

/// Reads the length byte and the payload of a meta event whose delta time
/// and type are known.
pub fn read_meta_event(delta: u32, event_type: u8, cursor: &mut ByteCursor) -> (r: Result<
    Event,
    MidiError,
>)
    ensures
        final(cursor).bytes() == old(cursor).bytes(),
        match meta_event_at(
            old(cursor).bytes(),
            old(cursor).position() as int,
            delta,
            event_type,
        ) {
            Ok((event, next)) => {
                &&& r matches Ok(ev)
                &&& ev@ == event
                &&& final(cursor).position() == next
            },
            Err(e) => r == Err::<Event, MidiError>(e) && final(cursor).position() == old(
                cursor,
            ).position(),
        },
{
    let length = match cursor.read_u8() {
        Ok(b) => b,
        Err(e) => {
            return Err(e);
        },
    };
    match cursor.read_exact(length as usize) {
        Ok(params) => Ok(Event { class: EventClass::Meta, delta, status: event_type, params }),
        Err(e) => {
            cursor.seek_back(1);
            Err(e)
        },
    }
}

/// Reads the body of an event whose delta time is known, and keeps the
/// running status up to date.
pub fn read_event_body(delta: u32, cursor: &mut ByteCursor, running_status: &mut u8) -> (r: Result<
    Event,
    MidiError,
>)
    ensures
        final(cursor).bytes() == old(cursor).bytes(),
        match event_body_at(
            old(cursor).bytes(),
            old(cursor).position() as int,
            delta,
            *old(running_status),
        ) {
            Ok(decoded) => {
                &&& r matches Ok(ev)
                &&& ev@ == decoded.event
                &&& ev@.wf()
                &&& final(cursor).position() == decoded.next
                &&& *final(running_status) == decoded.running
            },
            Err(e) => {
                &&& r == Err::<Event, MidiError>(e)
                &&& final(cursor).position() == old(cursor).position()
                &&& *final(running_status) == *old(running_status)
            },
        },
{
    let first = match cursor.read_u8() {
        Ok(b) => b,
        Err(e) => {
            return Err(e);
        },
    };
    if first == 0xff {
        let event_type = match cursor.read_u8() {
            Ok(b) => b,
            Err(e) => {
                cursor.seek_back(1);
                return Err(e);
            },
        };
        match read_meta_event(delta, event_type, cursor) {
            Ok(event) => Ok(event),
            Err(e) => {
                cursor.seek_back(2);
                Err(e)
            },
        }
    } else if first == 0xf0 || first == 0xf7 {
        Ok(Event { class: EventClass::SysEx, delta, status: 0, params: Vec::new() })
    } else if first < 0x80 {
        cursor.seek_back(1);
        read_channel_event(delta, *running_status, cursor)
    } else {
        match read_channel_event(delta, first, cursor) {
            Ok(event) => {
                *running_status = first;
                Ok(event)
            },
            Err(e) => {
                cursor.seek_back(1);
                Err(e)
            },
        }
    }
}

/// Reads one event, delta time and body, and keeps the running status up to
/// date.
pub fn read_event(cursor: &mut ByteCursor, running_status: &mut u8) -> (r: Result<Event, MidiError>)
    ensures
        final(cursor).bytes() == old(cursor).bytes(),
        match event_at(
            old(cursor).bytes(),
            old(cursor).position() as int,
            *old(running_status),
        ) {
            Ok(decoded) => {
                &&& r matches Ok(ev)
                &&& ev@ == decoded.event
                &&& ev@.wf()
                &&& final(cursor).position() == decoded.next
                &&& *final(running_status) == decoded.running
            },
            Err(e) => {
                &&& r == Err::<Event, MidiError>(e)
                &&& final(cursor).position() == old(cursor).position()
                &&& *final(running_status) == *old(running_status)
            },
        },
{
    let start = cursor.position();
    let delta = match read_vlq(cursor) {
        Ok(v) => v,
        Err(e) => {
            return Err(e);
        },
    };
    match read_event_body(delta, cursor, running_status) {
        Ok(event) => Ok(event),
        Err(e) => {
            let behind = cursor.position();
            cursor.seek_back(behind - start);
            Err(e)
        },
    }
}

} // verus!
