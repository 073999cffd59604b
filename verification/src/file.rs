//! Chunks: the header of a file, its tracks, and the file as a whole.
//!
//! A file is a header chunk followed by track chunks. Every chunk starts
//! with a four-byte tag and a 32-bit length, all numbers big-endian. The
//! events of a track are decoded one after another for as long as fewer
//! bytes than the declared length have been consumed, so the last event of a
//! track may reach beyond the declared length. An end-of-track meta event
//! ends nothing by itself. The declared length of the header is recorded and
//! not otherwise used: the first track is looked for right behind the three
//! header fields.
//!
//! Every function here either succeeds or leaves the cursor as it was.

use vstd::prelude::*;

use crate::cursor::ByteCursor;
use crate::cursor::big_endian;
use crate::decode::event_at;
use crate::decode::lemma_event_at_bounds;
use crate::decode::read_event;
use crate::error::MidiError;
use crate::event::Event;
use crate::event::EventView;
use crate::event::event_views;
use crate::notes::Note;
use crate::notes::NoteView;
use crate::notes::note_views;
use crate::notes::reduce;
use crate::notes::reduce_notes;
use crate::notes::total_ticks;

verus! {

/// The two kinds of chunk.
#[derive(Clone, Copy, Debug, PartialEq, Eq, Structural)]
pub enum ChunkKind {
    Header,
    Track,
}

impl ChunkKind {
    /// The four bytes that open a chunk of this kind: the letters `MThd`
    /// for the header, `MTrk` for a track.
    pub open spec fn tag(self) -> Seq<u8> {
        match self {
            ChunkKind::Header => seq![0x4du8, 0x54u8, 0x68u8, 0x64u8],
            ChunkKind::Track => seq![0x4du8, 0x54u8, 0x72u8, 0x6bu8],
        }
    }
}

/// The position behind the tag of a chunk of the given kind that starts at
/// `pos`.
pub open spec fn tag_at(bytes: Seq<u8>, pos: int, kind: ChunkKind) -> Result<int, MidiError> {
    if pos + 4 > bytes.len() {
        Err(MidiError::TruncatedInput)
    } else if bytes.subrange(pos, pos + 4) != kind.tag() {
        Err(MidiError::InvalidChunkTag)
    } else {
        Ok(pos + 4)
    }
}

/// The fields of the header chunk.
#[derive(Clone, Copy, Debug, PartialEq, Eq, Structural)]
pub struct Header {
    /// The declared length of the chunk.
    pub length: u32,
    pub format: u16,
    /// The count of track chunks that follow.
    pub tracks: u16,
    /// The time division as stored: mode flag in the top bit, value in the
    /// fifteen bits below.
    pub division: u16,
}

impl Header {
    /// Whether the time division counts frames per second rather than ticks
    /// per quarter note: the top bit of the field.
    pub fn is_smpte(&self) -> (r: bool)
        ensures
            r == (self.division >= 0x8000),
    {
        let d = self.division;
        assert((d & 0x8000 != 0) == (d >= 0x8000)) by (bit_vector);
        d & 0x8000 != 0
    }

    /// The low fifteen bits of the time division.
    pub fn division_value(&self) -> (r: u16)
        ensures
            r == self.division % 0x8000,
    {
        let d = self.division;
        assert(d & 0x7fff == d % 0x8000) by (bit_vector);
        d & 0x7fff
    }
}

/// The header chunk that starts at `pos`, and the position behind its three
/// fields.
pub open spec fn header_at(bytes: Seq<u8>, pos: int) -> Result<(Header, int), MidiError> {
    match tag_at(bytes, pos, ChunkKind::Header) {
        Err(e) => Err(e),
        Ok(body) => {
            if body + 10 > bytes.len() {
                Err(MidiError::TruncatedInput)
            } else {
                Ok(
                    (
                        Header {
                            length: big_endian(bytes.subrange(body, body + 4)) as u32,
                            format: big_endian(bytes.subrange(body + 4, body + 6)) as u16,
                            tracks: big_endian(bytes.subrange(body + 6, body + 8)) as u16,
                            division: big_endian(bytes.subrange(body + 8, body + 10)) as u16,
                        },
                        body + 10,
                    ),
                )
            }
        },
    }
}

/// The events decoded from `pos` on, one after another while the position
/// is below `end`, and the position behind the last of them. `running` is
/// the running status in force at `pos`.
pub open spec fn events_until(bytes: Seq<u8>, pos: int, end: int, running: u8) -> Result<
    (Seq<EventView>, int),
    MidiError,
>
    decreases bytes.len() - pos,
    when 0 <= pos <= bytes.len()
{
    if pos >= end {
        Ok((Seq::empty(), pos))
    } else {
        match event_at(bytes, pos, running) {
            Err(e) => Err(e),
            Ok(decoded) => {
                proof {
                    lemma_event_at_bounds(bytes, pos, running);
                }
                match events_until(bytes, decoded.next, end, decoded.running) {
                    Err(e) => Err(e),
                    Ok((rest, next)) => Ok((seq![decoded.event] + rest, next)),
                }
            },
        }
    }
}

/// One track: its events in source order and the notes assembled from them.
#[derive(Debug, PartialEq, Eq)]
pub struct Track {
    pub events: Vec<Event>,
    pub notes: Vec<Note>,
}

/// A track as a mathematical value.
pub struct TrackView {
    pub events: Seq<EventView>,
    pub notes: Seq<NoteView>,
}

impl View for Track {
    type V = TrackView;

    open spec fn view(&self) -> TrackView {
        TrackView { events: event_views(self.events@), notes: note_views(self.notes@) }
    }
}

impl Clone for Track {
    fn clone(&self) -> (r: Self)
        ensures
            r@ == self@,
    {
        let r = Track { events: self.events.clone(), notes: self.notes.clone() };
        assert(r@.events =~= self@.events);
        assert(r@.notes =~= self@.notes);
        r
    }
}

/// The views of a sequence of tracks, in the same order.
pub open spec fn track_views(tracks: Seq<Track>) -> Seq<TrackView> {
    tracks.map_values(|t: Track| t@)
}

/// The track chunk that starts at `pos`, and the position behind its last
/// event. The running status is zero at the start of every track.
pub open spec fn track_at(bytes: Seq<u8>, pos: int) -> Result<(TrackView, int), MidiError> {
    match tag_at(bytes, pos, ChunkKind::Track) {
        Err(e) => Err(e),
        Ok(body) => {
            if body + 4 > bytes.len() {
                Err(MidiError::TruncatedInput)
            } else {
                let length = big_endian(bytes.subrange(body, body + 4));
                match events_until(bytes, body + 4, body + 4 + length, 0) {
                    Err(e) => Err(e),
                    Ok((events, next)) => Ok(
                        (TrackView { events, notes: reduce_notes(events) }, next),
                    ),
                }
            }
        },
    }
}

/// The `count` track chunks that follow one another from `pos` on.
pub open spec fn tracks_at(bytes: Seq<u8>, pos: int, count: nat) -> Result<
    Seq<TrackView>,
    MidiError,
>
    decreases count,
{
    if count == 0 {
        Ok(Seq::empty())
    } else {
        match track_at(bytes, pos) {
            Err(e) => Err(e),
            Ok((track, next)) => match tracks_at(bytes, next, (count - 1) as nat) {
                Err(e) => Err(e),
                Ok(rest) => Ok(seq![track] + rest),
            },
        }
    }
}

/// A decoded file.
#[derive(Debug, PartialEq, Eq)]
pub struct MidiFile {
    pub header: Header,
    pub tracks: Vec<Track>,
}

/// A decoded file as a mathematical value.
pub struct MidiFileView {
    pub header: Header,
    pub tracks: Seq<TrackView>,
}

impl View for MidiFile {
    type V = MidiFileView;

    open spec fn view(&self) -> MidiFileView {
        MidiFileView { header: self.header, tracks: track_views(self.tracks@) }
    }
}

impl Clone for MidiFile {
    fn clone(&self) -> (r: Self)
        ensures
            r@ == self@,
    {
        let r = MidiFile { header: self.header, tracks: self.tracks.clone() };
        assert(r@.tracks =~= self@.tracks);
        r
    }
}

/// The file that `bytes` holds: the header at the front and as many tracks
/// behind it as the header counts. Bytes behind the last track are not
/// looked at.
pub open spec fn midi_file(bytes: Seq<u8>) -> Result<MidiFileView, MidiError> {
    match header_at(bytes, 0) {
        Err(e) => Err(e),
        Ok((header, next)) => match tracks_at(bytes, next, header.tracks as nat) {
            Err(e) => Err(e),
            Ok(tracks) => Ok(MidiFileView { header, tracks }),
        },
    }
}

/// Decoding up to `end` stops at the first event boundary at or behind
/// `end`, inside the source, and every event takes at least two bytes.
pub proof fn lemma_events_until_bounds(bytes: Seq<u8>, pos: int, end: int, running: u8)
    requires
        0 <= pos <= bytes.len(),
    ensures
        events_until(bytes, pos, end, running) matches Ok((events, next)) ==> {
            &&& pos <= next <= bytes.len()
            &&& end <= next || pos == next
            &&& 2 * events.len() <= next - pos
            &&& forall|i: int| 0 <= i < events.len() ==> (#[trigger] events[i]).wf()
        },
    decreases bytes.len() - pos,
{
    if pos < end {
        lemma_event_at_bounds(bytes, pos, running);
        match event_at(bytes, pos, running) {
            Ok(decoded) => {
                lemma_events_until_bounds(bytes, decoded.next, end, decoded.running);
            },
            Err(_) => {},
        }
    }
}

/// The events of a track take up its declared length or more, never less,
/// and the track has the notes that its events make.
pub proof fn lemma_track_bounds(bytes: Seq<u8>, pos: int)
    requires
        0 <= pos <= bytes.len(),
    ensures
        track_at(bytes, pos) matches Ok((track, next)) ==> {
            &&& pos + 8 + big_endian(bytes.subrange(pos + 4, pos + 8)) <= next <= bytes.len()
            &&& track.notes == reduce_notes(track.events)
        },
{
    if pos + 8 <= bytes.len() {
        let length = big_endian(bytes.subrange(pos + 4, pos + 8));
        lemma_events_until_bounds(bytes, pos + 8, pos + 8 + length, 0);
    }
}

/// Where a track is expected and four bytes other than the track tag stand,
/// the file is rejected for its tag, whatever follows those bytes: nothing
/// behind a wrong tag is decoded.
pub proof fn lemma_wrong_track_tag(bytes: Seq<u8>)
    requires
        header_at(bytes, 0) matches Ok((header, next)) && header.tracks > 0 && next + 4
            <= bytes.len() && bytes.subrange(next, next + 4) != ChunkKind::Track.tag(),
    ensures
        midi_file(bytes) == Err::<MidiFileView, MidiError>(MidiError::InvalidChunkTag),
{
}

/// Consumes the tag of a chunk of the given kind.
pub fn read_tag(cursor: &mut ByteCursor, kind: ChunkKind) -> (r: Result<(), MidiError>)
    ensures
        final(cursor).bytes() == old(cursor).bytes(),
        match tag_at(old(cursor).bytes(), old(cursor).position() as int, kind) {
            Ok(next) => r is Ok && final(cursor).position() == next,
            Err(e) => r == Err::<(), MidiError>(e) && final(cursor).position() == old(
                cursor,
            ).position(),
        },
{
    let tag = match cursor.read_exact(4) {
        Ok(v) => v,
        Err(e) => {
            return Err(e);
        },
    };
    let matches = match kind {
        ChunkKind::Header => tag[0] == 0x4d && tag[1] == 0x54 && tag[2] == 0x68 && tag[3] == 0x64,
        ChunkKind::Track => tag[0] == 0x4d && tag[1] == 0x54 && tag[2] == 0x72 && tag[3] == 0x6b,
    };
    proof {
        if matches {
            assert(tag@ =~= kind.tag());
        } else {
            assert(tag@[0] != kind.tag()[0] || tag@[1] != kind.tag()[1] || tag@[2] != kind.tag()[2]
                || tag@[3] != kind.tag()[3]);
        }
    }
    if matches {
        Ok(())
    } else {
        cursor.seek_back(4);
        Err(MidiError::InvalidChunkTag)
    }
}

/// Reads the header chunk: its tag, its declared length and its three
/// fields.
pub fn parse_header(cursor: &mut ByteCursor) -> (r: Result<Header, MidiError>)
    ensures
        final(cursor).bytes() == old(cursor).bytes(),
        match header_at(old(cursor).bytes(), old(cursor).position() as int) {
            Ok((header, next)) => r == Ok::<Header, MidiError>(header) && final(cursor).position()
                == next,
            Err(e) => r == Err::<Header, MidiError>(e) && final(cursor).position() == old(
                cursor,
            ).position(),
        },
{
    match read_tag(cursor, ChunkKind::Header) {
        Ok(_) => {},
        Err(e) => {
            return Err(e);
        },
    }
    if cursor.remaining() < 10 {
        cursor.seek_back(4);
        return Err(MidiError::TruncatedInput);
    }
    let length = match cursor.read_u32() {
        Ok(v) => v,
        Err(e) => {
            return Err(e);
        },
    };
    let format = match cursor.read_u16() {
        Ok(v) => v,
        Err(e) => {
            return Err(e);
        },
    };
    let tracks = match cursor.read_u16() {
        Ok(v) => v,
        Err(e) => {
            return Err(e);
        },
    };
    let division = match cursor.read_u16() {
        Ok(v) => v,
        Err(e) => {
            return Err(e);
        },
    };
    Ok(Header { length, format, tracks, division })
}

/// `prefix` put in front of the events of an outcome.
spec fn behind(prefix: Seq<EventView>, outcome: Result<(Seq<EventView>, int), MidiError>) -> Result<
    (Seq<EventView>, int),
    MidiError,
> {
    match outcome {
        Ok((rest, next)) => Ok((prefix + rest, next)),
        Err(e) => Err(e),
    }
}

/// `prefix` put in front of the tracks of an outcome.
spec fn tracks_behind(prefix: Seq<TrackView>, outcome: Result<Seq<TrackView>, MidiError>) -> Result<
    Seq<TrackView>,
    MidiError,
> {
    match outcome {
        Ok(rest) => Ok(prefix + rest),
        Err(e) => Err(e),
    }
}

/// No delta time exceeds 32 bits, so the ticks of a track are bounded by the
/// count of its events.
proof fn lemma_total_ticks_bound(events: Seq<EventView>)
    ensures
        total_ticks(events) <= events.len() * 0xffff_ffff,
    decreases events.len(),
{
    if events.len() != 0 {
        lemma_total_ticks_bound(events.drop_last());
    }
}

/// Reads one track chunk: its tag, its declared length, and events for as
/// long as fewer bytes than that length have been consumed; then assembles
/// the notes of the track.
pub fn parse_track(cursor: &mut ByteCursor) -> (r: Result<Track, MidiError>)
    ensures
        final(cursor).bytes() == old(cursor).bytes(),
        match track_at(old(cursor).bytes(), old(cursor).position() as int) {
            Ok((track, next)) => {
                &&& r matches Ok(t)
                &&& t@ == track
                &&& final(cursor).position() == next
            },
            Err(e) => r == Err::<Track, MidiError>(e) && final(cursor).position() == old(
                cursor,
            ).position(),
        },
{
    let ghost bytes = cursor.bytes();
    let start = cursor.position();
    match read_tag(cursor, ChunkKind::Track) {
        Ok(_) => {},
        Err(e) => {
            return Err(e);
        },
    }
    let length = match cursor.read_u32() {
        Ok(v) => v,
        Err(e) => {
            cursor.seek_back(4);
            return Err(e);
        },
    };
    let body = cursor.position();
    let ghost end = body + length;
    let mut events: Vec<Event> = Vec::new();
    let mut running: u8 = 0;
    proof {
        let all = events_until(bytes, body as int, end, 0);
        if all is Ok {
            assert(event_views(events@) + all->Ok_0.0 =~= all->Ok_0.0);
        }
    }
    while cursor.position() - body < length as usize
        invariant
            cursor.bytes() == bytes,
            bytes == old(cursor).bytes(),
            start == old(cursor).position(),
            start + 8 == body,
            end == body + length,
            tag_at(bytes, start as int, ChunkKind::Track) == Ok::<int, MidiError>(start + 4),
            length as nat == big_endian(bytes.subrange(start + 4, start + 8)),
            body <= cursor.position() <= bytes.len(),
            events_until(bytes, body as int, end, 0) == behind(
                event_views(events@),
                events_until(bytes, cursor.position() as int, end, running),
            ),
            forall|j: int| 0 <= j < events@.len() ==> (#[trigger] events@[j])@.wf(),
            2 * events@.len() <= cursor.position() - body,
            events@.len() <= 0x8000_0000,
        decreases bytes.len() - cursor.position(),
    {
        let ghost here = cursor.position() as int;
        let ghost before = event_views(events@);
        let ghost decoded = event_at(bytes, here, running);
        proof {
            lemma_event_at_bounds(bytes, here, running);
        }
        match read_event(cursor, &mut running) {
            Ok(event) => {
                events.push(event);
                proof {
                    let d = decoded->Ok_0;
                    assert(event_views(events@) =~= before.push(d.event));
                    let rest = events_until(bytes, d.next, end, d.running);
                    if rest is Ok {
                        assert(before + (seq![d.event] + rest->Ok_0.0) =~= before.push(d.event)
                            + rest->Ok_0.0);
                    }
                }
            },
            Err(e) => {
                let reached = cursor.position();
                cursor.seek_back(reached - start);
                return Err(e);
            },
        }
    }
    proof {
        lemma_total_ticks_bound(event_views(events@));
        assert(events@.len() * 0xffff_ffff <= u64::MAX) by (nonlinear_arith)
            requires
                events@.len() <= 0x8000_0000,
        ;
    }
    let notes = reduce(events.as_slice());
    Ok(Track { events, notes })
}

/// Decodes a whole file: the header, then as many tracks as the header
/// counts, each with its events and its notes.
pub fn parse_file(data: &[u8]) -> (r: Result<MidiFile, MidiError>)
    ensures
        match midi_file(data@) {
            Ok(file) => r matches Ok(f) && f@ == file,
            Err(e) => r == Err::<MidiFile, MidiError>(e),
        },
{
    let mut cursor = ByteCursor::new(data);
    let header = match parse_header(&mut cursor) {
        Ok(h) => h,
        Err(e) => {
            return Err(e);
        },
    };
    let ghost first = cursor.position() as int;
    let mut tracks: Vec<Track> = Vec::new();
    let mut done: u16 = 0;
    proof {
        let all = tracks_at(data@, first, header.tracks as nat);
        if all is Ok {
            assert(track_views(tracks@) + all->Ok_0 =~= all->Ok_0);
        }
    }
    while done < header.tracks
        invariant
            cursor.bytes() == data@,
            header_at(data@, 0) == Ok::<(Header, int), MidiError>((header, first)),
            done <= header.tracks,
            tracks@.len() == done,
            tracks_at(data@, first, header.tracks as nat) == tracks_behind(
                track_views(tracks@),
                tracks_at(data@, cursor.position() as int, (header.tracks - done) as nat),
            ),
        decreases header.tracks - done,
    {
        let ghost before = track_views(tracks@);
        let ghost here = cursor.position() as int;
        match parse_track(&mut cursor) {
            Ok(track) => {
                tracks.push(track);
                done = done + 1;
                proof {
                    let (view, next) = track_at(data@, here)->Ok_0;
                    assert(track_views(tracks@) =~= before.push(view));
                    let rest = tracks_at(data@, next, (header.tracks - done) as nat);
                    if rest is Ok {
                        assert(before + (seq![view] + rest->Ok_0) =~= before.push(view)
                            + rest->Ok_0);
                    }
                }
            },
            Err(e) => {
                return Err(e);
            },
        }
    }
    proof {
        assert(track_views(tracks@) + Seq::<TrackView>::empty() =~= track_views(tracks@));
    }
    Ok(MidiFile { header, tracks })
}

} // verus!
