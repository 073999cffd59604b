//! Track events as the decoder hands them out.

use vstd::prelude::*;

use crate::bits::high4;

verus! {

/// The three classes of track event.
#[derive(Clone, Copy, Debug, PartialEq, Eq, Structural)]
pub enum EventClass {
    /// An event on one of the sixteen channels.
    Channel,
    /// A system-exclusive marker.
    SysEx,
    /// A file-level annotation.
    Meta,
}

/// The kinds of channel event, told apart by the upper nibble of the status
/// byte.
#[derive(Clone, Copy, Debug, PartialEq, Eq, Structural)]
pub enum ChannelEvent {
    NoteOff,
    NoteOn,
    NoteAftertouch,
    Controller,
    ProgramChange,
    ChannelAftertouch,
    PitchBend,
}

impl ChannelEvent {
    /// The kind that the nibble `code` stands for, if it stands for one.
    pub open spec fn of_code(code: u8) -> Option<ChannelEvent> {
        if code == 0x8 {
            Some(ChannelEvent::NoteOff)
        } else if code == 0x9 {
            Some(ChannelEvent::NoteOn)
        } else if code == 0xa {
            Some(ChannelEvent::NoteAftertouch)
        } else if code == 0xb {
            Some(ChannelEvent::Controller)
        } else if code == 0xc {
            Some(ChannelEvent::ProgramChange)
        } else if code == 0xd {
            Some(ChannelEvent::ChannelAftertouch)
        } else if code == 0xe {
            Some(ChannelEvent::PitchBend)
        } else {
            None
        }
    }

    /// The kind of channel event that a status byte announces: the one its
    /// upper nibble stands for.
    pub open spec fn of_status(status: u8) -> Option<ChannelEvent> {
        Self::of_code(status / 16)
    }

    /// The count of parameter bytes that follow the status of such an event.
    pub open spec fn param_count(self) -> nat {
        match self {
            ChannelEvent::ProgramChange | ChannelEvent::ChannelAftertouch => 1,
            _ => 2,
        }
    }

    /// Classifies a nibble. Every value outside `0x8..=0xE` is unknown.
    pub fn from_u8(code: u8) -> (r: Option<ChannelEvent>)
        ensures
            r == Self::of_code(code),
    {
        match code {
            0x8 => Some(ChannelEvent::NoteOff),
            0x9 => Some(ChannelEvent::NoteOn),
            0xa => Some(ChannelEvent::NoteAftertouch),
            0xb => Some(ChannelEvent::Controller),
            0xc => Some(ChannelEvent::ProgramChange),
            0xd => Some(ChannelEvent::ChannelAftertouch),
            0xe => Some(ChannelEvent::PitchBend),
            _ => None,
        }
    }

    /// Classifies a status byte by its upper nibble.
    pub fn from_status(status: u8) -> (r: Option<ChannelEvent>)
        ensures
            r == Self::of_status(status),
    {
        Self::from_u8(high4(status))
    }

    /// The count of parameter bytes that follow the status of such an event.
    pub fn param_len(self) -> (n: usize)
        ensures
            n == self.param_count(),
    {
        match self {
            ChannelEvent::ProgramChange | ChannelEvent::ChannelAftertouch => 1,
            _ => 2,
        }
    }
}

/// One decoded track event.
///
/// For a channel event `status` is the status byte in force, kind in the
/// upper nibble and channel in the lower, and `params` holds the one or two
/// parameter bytes of that kind. For a meta event `status` is the meta type
/// and `params` the payload. For a system-exclusive marker `status` is zero
/// and `params` is empty.
#[derive(Debug, PartialEq, Eq)]
pub struct Event {
    pub class: EventClass,
    /// Ticks since the previous event of the track.
    pub delta: u32,
    pub status: u8,
    pub params: Vec<u8>,
}

/// An event as a mathematical value.
pub struct EventView {
    pub class: EventClass,
    pub delta: u32,
    pub status: u8,
    pub params: Seq<u8>,
}

impl EventView {
    /// Whether the event has the shape that the decoder gives its class: a
    /// channel event has a known kind and as many parameters as the kind
    /// takes, and a system-exclusive marker is empty.
    pub open spec fn wf(self) -> bool {
        match self.class {
            EventClass::Channel => {
                &&& ChannelEvent::of_status(self.status) matches Some(kind)
                &&& self.params.len() == kind.param_count()
            },
            EventClass::SysEx => self.status == 0 && self.params.len() == 0,
            EventClass::Meta => true,
        }
    }
}

impl View for Event {
    type V = EventView;

    open spec fn view(&self) -> EventView {
        EventView {
            class: self.class,
            delta: self.delta,
            status: self.status,
            params: self.params@,
        }
    }
}

impl Clone for Event {
    fn clone(&self) -> (r: Self)
        ensures
            r@ == self@,
    {
        Event {
            class: self.class,
            delta: self.delta,
            status: self.status,
            params: self.params.clone(),
        }
    }
}

impl Event {
    /// Whether the event has the shape that the decoder gives its class.
    pub fn is_well_formed(&self) -> (r: bool)
        ensures
            r == self@.wf(),
    {
        match self.class {
            EventClass::Channel => {
                match ChannelEvent::from_status(self.status) {
                    Some(kind) => self.params.len() == kind.param_len(),
                    None => false,
                }
            },
            EventClass::SysEx => self.status == 0 && self.params.len() == 0,
            EventClass::Meta => true,
        }
    }
}

/// The views of a sequence of events, in the same order.
pub open spec fn event_views(events: Seq<Event>) -> Seq<EventView> {
    events.map_values(|e: Event| e@)
}

} // verus!
