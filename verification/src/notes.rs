//! Assembly of note intervals from the events of one track.
//!
//! A note starts with a Note-On of non-zero velocity and ends with the next
//! release of the same key: a Note-Off, or a Note-On of velocity zero. While
//! a key is held, a second strike of it replaces the first, which is then
//! never reported. A release of a key that is not held does nothing. Notes
//! come out in the order in which they end, and a note still held when the
//! track ends is not reported.
//!
//! [`ReducerState`] states this as a state machine over the events of a
//! track, and [`NoteAssembler`] runs it. [`lemma_reduce_characterized`] says
//! the same without a state: which release ends which strike.

use std::collections::HashMap;
use vstd::prelude::*;

use crate::event::ChannelEvent;
use crate::event::Event;
use crate::event::EventClass;
use crate::event::EventView;
use crate::event::event_views;

verus! {

broadcast use vstd::std_specs::hash::group_hash_axioms;

/// A struck key that has not been released yet.
#[derive(Clone, Copy, Debug, PartialEq, Eq, Structural)]
pub struct OpenNote {
    pub key: u8,
    pub velocity: u8,
    /// Ticks from the start of the track to the strike.
    pub position: u64,
}

/// A finished note.
#[derive(Clone, Copy, Debug, PartialEq, Eq, Structural)]
pub struct Note {
    pub key: u8,
    /// The velocity of the strike that started the note.
    pub velocity: u8,
    /// Ticks from the start of the track to the strike.
    pub position: u64,
    /// Ticks from the strike to the release.
    pub duration: u64,
}

/// A held key as a mathematical value.
pub struct OpenNoteView {
    pub key: u8,
    pub velocity: u8,
    pub position: nat,
}

/// A finished note as a mathematical value.
pub struct NoteView {
    pub key: u8,
    pub velocity: u8,
    pub position: nat,
    pub duration: nat,
}

impl View for OpenNote {
    type V = OpenNoteView;

    open spec fn view(&self) -> OpenNoteView {
        OpenNoteView { key: self.key, velocity: self.velocity, position: self.position as nat }
    }
}

impl View for Note {
    type V = NoteView;

    open spec fn view(&self) -> NoteView {
        NoteView {
            key: self.key,
            velocity: self.velocity,
            position: self.position as nat,
            duration: self.duration as nat,
        }
    }
}

/// The views of a sequence of notes, in the same order.
pub open spec fn note_views(notes: Seq<Note>) -> Seq<NoteView> {
    notes.map_values(|n: Note| n@)
}

/// Whether `e` releases a key: a Note-Off, or a Note-On of velocity zero.
pub open spec fn is_release(e: EventView) -> bool {
    &&& e.class == EventClass::Channel
    &&& {
        ||| ChannelEvent::of_status(e.status) == Some(ChannelEvent::NoteOff)
        ||| ChannelEvent::of_status(e.status) == Some(ChannelEvent::NoteOn) && e.params[1] == 0
    }
}

/// Whether `e` strikes a key: a Note-On of non-zero velocity.
pub open spec fn is_strike(e: EventView) -> bool {
    &&& e.class == EventClass::Channel
    &&& ChannelEvent::of_status(e.status) == Some(ChannelEvent::NoteOn)
    &&& e.params[1] != 0
}

/// Whether `e` carries the parameters that note assembly reads: a Note-On
/// its key and its velocity, a Note-Off its key. Every well-formed event
/// does; of other events nothing is asked.
pub open spec fn has_note_params(e: EventView) -> bool {
    e.class == EventClass::Channel ==> match ChannelEvent::of_status(e.status) {
        Some(ChannelEvent::NoteOn) => e.params.len() >= 2,
        Some(ChannelEvent::NoteOff) => e.params.len() >= 1,
        _ => true,
    }
}

/// The sum of the delta times of `events`.
pub open spec fn total_ticks(events: Seq<EventView>) -> nat
    decreases events.len(),
{
    if events.len() == 0 {
        0
    } else {
        total_ticks(events.drop_last()) + events.last().delta as nat
    }
}

/// The state of note assembly between two events of a track.
pub struct ReducerState {
    /// Ticks from the start of the track to the last event taken in.
    pub position: nat,
    /// The keys that are held, each with the strike that holds it.
    pub open: Map<u8, OpenNoteView>,
    /// The notes finished so far, in the order in which they ended.
    pub notes: Seq<NoteView>,
}

impl ReducerState {
    /// The state at the start of a track.
    pub open spec fn start() -> ReducerState {
        ReducerState { position: 0, open: Map::empty(), notes: Seq::empty() }
    }

    /// The state after `e` is taken in.
    pub open spec fn step(self, e: EventView) -> ReducerState {
        let position = self.position + e.delta as nat;
        let key = e.params[0];
        if is_release(e) && self.open.contains_key(key) {
            let held = self.open[key];
            ReducerState {
                position,
                open: self.open.remove(key),
                notes: self.notes.push(
                    NoteView {
                        key: held.key,
                        velocity: held.velocity,
                        position: held.position,
                        duration: (position - held.position) as nat,
                    },
                ),
            }
        } else if is_strike(e) {
            ReducerState {
                position,
                open: self.open.insert(
                    key,
                    OpenNoteView { key, velocity: e.params[1], position },
                ),
                notes: self.notes,
            }
        } else {
            ReducerState { position, open: self.open, notes: self.notes }
        }
    }

    /// The state after `events` are taken in, in order, from this state on.
    pub open spec fn after(self, events: Seq<EventView>) -> ReducerState
        decreases events.len(),
    {
        if events.len() == 0 {
            self
        } else {
            self.after(events.drop_last()).step(events.last())
        }
    }

    /// The state after all of `events` are taken in, in order, from the
    /// start of a track.
    pub open spec fn run(events: Seq<EventView>) -> ReducerState {
        Self::start().after(events)
    }

    /// What holds of every state that a run reaches: a held key is filed
    /// under itself, no strike lies ahead of the position, and no note ends
    /// ahead of it.
    pub open spec fn consistent(self) -> bool {
        &&& forall|k: u8| #[trigger]
            self.open.contains_key(k) ==> self.open[k].key == k && self.open[k].position
                <= self.position
        &&& forall|i: int|
            0 <= i < self.notes.len() ==> (#[trigger] self.notes[i]).position
                + self.notes[i].duration <= self.position
    }
}

/// The notes of a track: those finished after all of its events are taken
/// in.
pub open spec fn reduce_notes(events: Seq<EventView>) -> Seq<NoteView> {
    ReducerState::run(events).notes
}

/// Taking in an event keeps a state consistent.
pub proof fn lemma_step_consistent(s: ReducerState, e: EventView)
    requires
        s.consistent(),
    ensures
        s.step(e).consistent(),
{
    let t = s.step(e);
    assert forall|k: u8| #[trigger] t.open.contains_key(k) implies t.open[k].key == k
        && t.open[k].position <= t.position by {
        // a key held before stays where it was; the key of a strike is held at
        // the new position
        assert(s.open.contains_key(k) ==> s.open[k].position <= s.position);
    }
    assert forall|i: int| 0 <= i < t.notes.len() implies (#[trigger] t.notes[i]).position
        + t.notes[i].duration <= t.position by {
        // an earlier note is unchanged; a new one ends at the new position
        if i < s.notes.len() {
            assert(t.notes[i] == s.notes[i]);
        }
    }
}

/// A run ends in a consistent state whose position is the sum of the delta
/// times taken in.
pub proof fn lemma_run_consistent(events: Seq<EventView>)
    ensures
        ReducerState::run(events).consistent(),
        ReducerState::run(events).position == total_ticks(events),
    decreases events.len(),
{
    if events.len() != 0 {
        lemma_run_consistent(events.drop_last());
        lemma_step_consistent(ReducerState::run(events.drop_last()), events.last());
    }
}

/// The delta times of the first `n` events sum to no more than those of all.
pub proof fn lemma_total_ticks_prefix(events: Seq<EventView>, n: int)
    requires
        0 <= n <= events.len(),
    ensures
        total_ticks(events.take(n)) <= total_ticks(events),
    decreases events.len(),
{
    if n == events.len() {
        assert(events.take(n) =~= events);
    } else {
        assert(events.drop_last().take(n) =~= events.take(n));
        lemma_total_ticks_prefix(events.drop_last(), n);
    }
}

/// Taking in one more event is one more step.
pub proof fn lemma_run_push(events: Seq<EventView>, e: EventView)
    ensures
        ReducerState::run(events.push(e)) == ReducerState::run(events).step(e),
{
    assert(events.push(e).drop_last() =~= events);
}

/// A strike followed by a release of the same key finishes exactly one
/// note: it has the key and the velocity of the strike, starts where the
/// strike fell, and lasts as long as the delta time of the release. Whatever
/// held the key before the strike is dropped, and nothing else changes.
pub proof fn lemma_strike_then_release(s: ReducerState, strike: EventView, release: EventView)
    requires
        is_strike(strike),
        is_release(release),
        strike.params[0] == release.params[0],
    ensures
        s.step(strike).step(release).position == s.position + strike.delta + release.delta,
        s.step(strike).step(release).open == s.open.remove(strike.params[0]),
        s.step(strike).step(release).notes == s.notes.push(
            NoteView {
                key: strike.params[0],
                velocity: strike.params[1],
                position: s.position + strike.delta as nat,
                duration: release.delta as nat,
            },
        ),
{
    let key = strike.params[0];
    assert(s.step(strike).open.remove(key) =~= s.open.remove(key));
}

/// A Note-On of velocity zero does what a Note-Off of the same key and delta
/// time does, whatever the state and whatever the velocity of the Note-Off.
pub proof fn lemma_zero_velocity_is_release(s: ReducerState, on: EventView, off: EventView)
    requires
        on.class == EventClass::Channel,
        off.class == EventClass::Channel,
        ChannelEvent::of_status(on.status) == Some(ChannelEvent::NoteOn),
        ChannelEvent::of_status(off.status) == Some(ChannelEvent::NoteOff),
        on.params[1] == 0,
        on.params[0] == off.params[0],
        on.delta == off.delta,
    ensures
        s.step(on) == s.step(off),
{
}

/// A release of a key that is not held finishes no note and changes nothing
/// among the held keys; only time moves on.
pub proof fn lemma_unmatched_release(s: ReducerState, release: EventView)
    requires
        is_release(release),
        !s.open.contains_key(release.params[0]),
    ensures
        s.step(release) == (ReducerState {
            position: s.position + release.delta as nat,
            open: s.open,
            notes: s.notes,
        }),
{
}

/// A second strike of a held key replaces the first: the key is then held by
/// the second strike alone, and no note is finished by either.
pub proof fn lemma_restrike(s: ReducerState, first: EventView, second: EventView)
    requires
        is_strike(first),
        is_strike(second),
        first.params[0] == second.params[0],
    ensures
        s.step(first).step(second) == (ReducerState {
            position: s.position + first.delta as nat + second.delta as nat,
            open: s.open.insert(
                second.params[0],
                OpenNoteView {
                    key: second.params[0],
                    velocity: second.params[1],
                    position: s.position + first.delta as nat + second.delta as nat,
                },
            ),
            notes: s.notes,
        }),
{
    let key = first.params[0];
    let mid = s.step(first);
    let held = OpenNoteView {
        key,
        velocity: second.params[1],
        position: s.position + first.delta as nat + second.delta as nat,
    };
    assert(mid.open.insert(key, held) =~= s.open.insert(key, held));
}

/// An event that neither strikes nor releases a key leaves the held keys
/// and the finished notes as they are.
pub proof fn lemma_other_event(s: ReducerState, e: EventView)
    requires
        !is_strike(e),
        !is_release(e),
    ensures
        s.step(e) == (ReducerState {
            position: s.position + e.delta as nat,
            open: s.open,
            notes: s.notes,
        }),
{
}

/// What a track makes of its later events depends on its earlier events
/// through the state alone.
pub proof fn lemma_run_append(earlier: Seq<EventView>, later: Seq<EventView>)
    ensures
        ReducerState::run(earlier + later) == ReducerState::run(earlier).after(later),
    decreases later.len(),
{
    if later.len() == 0 {
        assert(earlier + later =~= earlier);
    } else {
        assert((earlier + later).drop_last() =~= earlier + later.drop_last());
        lemma_run_append(earlier, later.drop_last());
    }
}

/// A key is held only if an earlier event of the track struck it.
pub proof fn lemma_held_key_was_struck(events: Seq<EventView>, key: u8)
    requires
        ReducerState::run(events).open.contains_key(key),
    ensures
        exists|i: int|
            0 <= i < events.len() && is_strike(#[trigger] events[i]) && events[i].params[0]
                == key,
    decreases events.len(),
{
    if events.len() != 0 {
        let last = events.last();
        if !(is_strike(last) && last.params[0] == key) {
            // the last event did not strike the key, so the key was held
            // before it
            let before = events.drop_last();
            lemma_held_key_was_struck(before, key);
            let i = choose|i: int|
                0 <= i < before.len() && is_strike(#[trigger] before[i]) && before[i].params[0]
                    == key;
            assert(events[i] == before[i]);
        }
    }
}

/// In any track, a strike followed at once by a release of the same key adds
/// exactly one note to those of the events before: it has the key and the
/// velocity of the strike, starts at the strike, and lasts as long as the
/// delta time of the release.
pub proof fn lemma_reduce_strike_then_release(
    before: Seq<EventView>,
    strike: EventView,
    release: EventView,
)
    requires
        is_strike(strike),
        is_release(release),
        strike.params[0] == release.params[0],
    ensures
        reduce_notes(before.push(strike).push(release)) == reduce_notes(before).push(
            NoteView {
                key: strike.params[0],
                velocity: strike.params[1],
                position: total_ticks(before) + strike.delta as nat,
                duration: release.delta as nat,
            },
        ),
{
    lemma_run_push(before, strike);
    lemma_run_push(before.push(strike), release);
    lemma_run_consistent(before);
    lemma_strike_then_release(ReducerState::run(before), strike, release);
}

/// A track in which a Note-On of velocity zero stands in the place of a
/// Note-Off of the same key and delta time has the same notes, whatever
/// comes before and after the event.
pub proof fn lemma_reduce_zero_velocity(
    before: Seq<EventView>,
    on: EventView,
    off: EventView,
    after: Seq<EventView>,
)
    requires
        on.class == EventClass::Channel,
        off.class == EventClass::Channel,
        ChannelEvent::of_status(on.status) == Some(ChannelEvent::NoteOn),
        ChannelEvent::of_status(off.status) == Some(ChannelEvent::NoteOff),
        on.params[1] == 0,
        on.params[0] == off.params[0],
        on.delta == off.delta,
    ensures
        reduce_notes(before.push(on) + after) == reduce_notes(before.push(off) + after),
{
    lemma_run_push(before, on);
    lemma_run_push(before, off);
    lemma_zero_velocity_is_release(ReducerState::run(before), on, off);
    lemma_run_append(before.push(on), after);
    lemma_run_append(before.push(off), after);
}

/// A release of a key that no earlier event of the track struck adds no
/// note. A track that is one such release has no notes at all.
pub proof fn lemma_reduce_unmatched_release(before: Seq<EventView>, release: EventView)
    requires
        is_release(release),
        forall|i: int|
            0 <= i < before.len() ==> !(is_strike(#[trigger] before[i]) && before[i].params[0]
                == release.params[0]),
    ensures
        reduce_notes(before.push(release)) == reduce_notes(before),
        before.len() == 0 ==> reduce_notes(before.push(release)) == Seq::<NoteView>::empty(),
{
    let s = ReducerState::run(before);
    if s.open.contains_key(release.params[0]) {
        lemma_held_key_was_struck(before, release.params[0]);
    }
    lemma_run_push(before, release);
    lemma_unmatched_release(s, release);
}

/// In any track, two strikes of one key and then its release add exactly one
/// note to those of the events before, and it is the note of the second
/// strike: nothing of the first strike is left.
pub proof fn lemma_reduce_restrike(
    before: Seq<EventView>,
    first: EventView,
    second: EventView,
    release: EventView,
)
    requires
        is_strike(first),
        is_strike(second),
        is_release(release),
        first.params[0] == second.params[0],
        second.params[0] == release.params[0],
    ensures
        reduce_notes(before.push(first).push(second).push(release)) == reduce_notes(before).push(
            NoteView {
                key: second.params[0],
                velocity: second.params[1],
                position: total_ticks(before) + first.delta as nat + second.delta as nat,
                duration: release.delta as nat,
            },
        ),
{
    let s = ReducerState::run(before);
    lemma_run_push(before, first);
    lemma_run_push(before.push(first), second);
    lemma_run_push(before.push(first).push(second), release);
    lemma_run_consistent(before);
    lemma_strike_then_release(s.step(first), second, release);
}

/// Whether `e` strikes or releases `key`.
pub open spec fn touches(e: EventView, key: u8) -> bool {
    (is_strike(e) || is_release(e)) && e.params[0] == key
}

/// The index of the last of the first `n` events that strikes or releases
/// `key`, if one of them does.
pub open spec fn last_touch(events: Seq<EventView>, key: u8, n: int) -> Option<int>
    decreases n,
{
    if n <= 0 {
        None
    } else if touches(events[n - 1], key) {
        Some(n - 1)
    } else {
        last_touch(events, key, n - 1)
    }
}

/// The index of the strike that the release at index `j` ends, if it ends
/// one: the last event before it that strikes or releases its key, where
/// that event is a strike.
pub open spec fn opener(events: Seq<EventView>, j: int) -> Option<int> {
    match last_touch(events, events[j].params[0], j) {
        Some(i) => if is_strike(events[i]) {
            Some(i)
        } else {
            None
        },
        None => None,
    }
}

/// The note from the strike at index `i` to the release at index `j`.
pub open spec fn note_between(events: Seq<EventView>, i: int, j: int) -> NoteView {
    NoteView {
        key: events[i].params[0],
        velocity: events[i].params[1],
        position: total_ticks(events.take(i + 1)),
        duration: (total_ticks(events.take(j + 1)) - total_ticks(events.take(i + 1))) as nat,
    }
}

/// The notes that end among the first `n` events, in the order of their
/// releases: one for each release that ends a strike.
pub open spec fn notes_ending_before(events: Seq<EventView>, n: int) -> Seq<NoteView>
    decreases n,
{
    if n <= 0 {
        Seq::empty()
    } else {
        let earlier = notes_ending_before(events, n - 1);
        if is_release(events[n - 1]) && opener(events, n - 1) is Some {
            earlier.push(note_between(events, opener(events, n - 1)->Some_0, n - 1))
        } else {
            earlier
        }
    }
}

/// The last touch of a key lies among the events looked at.
proof fn lemma_last_touch_bounds(events: Seq<EventView>, key: u8, n: int)
    ensures
        last_touch(events, key, n) matches Some(i) ==> 0 <= i < n && touches(events[i], key),
    decreases n,
{
    if n > 0 && !touches(events[n - 1], key) {
        lemma_last_touch_bounds(events, key, n - 1);
    }
}

/// After the first `n` events of a track, a key is held exactly if the last
/// event that touched it was a strike, and it is held by that strike; the
/// notes finished are those that end among these events.
proof fn lemma_run_prefix(events: Seq<EventView>, n: int)
    requires
        0 <= n <= events.len(),
    ensures
        ReducerState::run(events.take(n)).position == total_ticks(events.take(n)),
        ReducerState::run(events.take(n)).notes == notes_ending_before(events, n),
        forall|key: u8| #[trigger]
            ReducerState::run(events.take(n)).open.contains_key(key) <==> (last_touch(
                events,
                key,
                n,
            ) matches Some(i) && is_strike(events[i])),
        forall|key: u8| #[trigger]
            ReducerState::run(events.take(n)).open.contains_key(key) ==> ReducerState::run(
                events.take(n),
            ).open[key] == (OpenNoteView {
                key,
                velocity: events[last_touch(events, key, n)->Some_0].params[1],
                position: total_ticks(events.take(last_touch(events, key, n)->Some_0 + 1)),
            }),
    decreases n,
{
    if n > 0 {
        let e = events[n - 1];
        let before = ReducerState::run(events.take(n - 1));
        let now = ReducerState::run(events.take(n));
        lemma_run_prefix(events, n - 1);
        assert(events.take(n).drop_last() =~= events.take(n - 1));
        assert(now == before.step(e));
        assert forall|key: u8| #[trigger]
            now.open.contains_key(key) <==> (last_touch(events, key, n) matches Some(i)
                && is_strike(events[i])) by {
            lemma_last_touch_bounds(events, key, n - 1);
            assert(before.open.contains_key(key) <==> (last_touch(events, key, n - 1) matches Some(
                i,
            ) && is_strike(events[i])));
        }
        assert forall|key: u8| #[trigger] now.open.contains_key(key) implies now.open[key] == (
        OpenNoteView {
            key,
            velocity: events[last_touch(events, key, n)->Some_0].params[1],
            position: total_ticks(events.take(last_touch(events, key, n)->Some_0 + 1)),
        }) by {
            lemma_last_touch_bounds(events, key, n - 1);
            if !touches(e, key) {
                assert(before.open.contains_key(key));
            }
        }
        if is_release(e) {
            let key = e.params[0];
            lemma_last_touch_bounds(events, key, n - 1);
            assert(before.open.contains_key(key) <==> opener(events, n - 1) is Some);
        }
    }
}

/// The notes of a track are exactly these: one for each release that ends a
/// strike, in the order of the releases. A release ends a strike when the
/// strike is the last event before it that strikes or releases its key. The
/// note has the key and the velocity of the strike, starts at the position
/// of the strike and lasts up to the position of the release.
pub proof fn lemma_reduce_characterized(events: Seq<EventView>)
    ensures
        reduce_notes(events) == notes_ending_before(events, events.len() as int),
{
    lemma_run_prefix(events, events.len() as int);
    assert(events.take(events.len() as int) =~= events);
}

/// Assembles the notes of one track from its events, taken in one at a time.
pub struct NoteAssembler {
    position: u64,
    open: HashMap<u8, OpenNote>,
    notes: Vec<Note>,
}

impl View for NoteAssembler {
    type V = ReducerState;

    closed spec fn view(&self) -> ReducerState {
        ReducerState {
            position: self.position as nat,
            open: self.open@.map_values(|o: OpenNote| o@),
            notes: note_views(self.notes@),
        }
    }
}

impl NoteAssembler {
    /// An assembler at the start of a track.
    pub fn new() -> (a: Self)
        ensures
            a@ == ReducerState::start(),
    {
        let a = NoteAssembler { position: 0, open: HashMap::new(), notes: Vec::new() };
        assert(a@.open =~= Map::<u8, OpenNoteView>::empty());
        assert(a@.notes =~= Seq::<NoteView>::empty());
        a
    }

    /// Ticks from the start of the track to the last event taken in.
    pub fn position(&self) -> (p: u64)
        ensures
            p == self@.position,
    {
        self.position
    }

    /// Takes in the next event of the track.
    pub fn feed(&mut self, event: &Event)
        requires
            old(self)@.consistent(),
            has_note_params(event@),
            old(self)@.position + event.delta <= u64::MAX,
        ensures
            final(self)@ == old(self)@.step(event@),
            final(self)@.consistent(),
    {
        let ghost before = self@;
        proof {
            lemma_step_consistent(before, event@);
        }
        let position: u64 = self.position + event.delta as u64;
        self.position = position;
        let mut releases = false;
        let mut strikes = false;
        if event.class == EventClass::Channel {
            match ChannelEvent::from_status(event.status) {
                Some(ChannelEvent::NoteOff) => {
                    releases = true;
                },
                Some(ChannelEvent::NoteOn) => {
                    if event.params[1] == 0 {
                        releases = true;
                    } else {
                        strikes = true;
                    }
                },
                _ => {},
            }
        }
        if releases {
            let key = event.params[0];
            match self.open.remove(&key) {
                Some(held) => {
                    let note = Note {
                        key: held.key,
                        velocity: held.velocity,
                        position: held.position,
                        duration: position - held.position,
                    };
                    self.notes.push(note);
                    assert(self@.notes =~= before.notes.push(note@));
                    assert(self@.open =~= before.open.remove(key));
                },
                None => {
                    assert(self@.open =~= before.open);
                },
            }
        } else if strikes {
            let key = event.params[0];
            let held = OpenNote { key, velocity: event.params[1], position };
            self.open.insert(key, held);
            assert(self@.open =~= before.open.insert(key, held@));
        }
    }

    /// Ends the track and hands out the finished notes, in the order in
    /// which they ended. Keys still held are dropped.
    pub fn finish(self) -> (notes: Vec<Note>)
        ensures
            note_views(notes@) == self@.notes,
    {
        self.notes
    }
}

/// Assembles the notes of one track from all of its events.
pub fn reduce(events: &[Event]) -> (notes: Vec<Note>)
    requires
        forall|i: int| 0 <= i < events@.len() ==> has_note_params((#[trigger] events@[i])@),
        total_ticks(event_views(events@)) <= u64::MAX,
    ensures
        note_views(notes@) == reduce_notes(event_views(events@)),
{
    let ghost views = event_views(events@);
    let mut assembler = NoteAssembler::new();
    let mut i: usize = 0;
    while i < events.len()
        invariant
            i <= events@.len(),
            views == event_views(events@),
            forall|j: int| 0 <= j < events@.len() ==> has_note_params((#[trigger] events@[j])@),
            total_ticks(views) <= u64::MAX,
            assembler@ == ReducerState::run(views.take(i as int)),
            assembler@.consistent(),
        decreases events@.len() - i,
    {
        proof {
            let next = views.take(i + 1);
            assert(next.drop_last() =~= views.take(i as int));
            lemma_run_consistent(views.take(i as int));
            lemma_total_ticks_prefix(views, i + 1);
        }
        assembler.feed(&events[i]);
        i = i + 1;
    }
    assert(views.take(i as int) =~= views);
    assembler.finish()
}

} // verus!
