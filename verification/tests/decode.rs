use midi_parser::cursor::ByteCursor;
use midi_parser::decode::read_channel_event;
use midi_parser::decode::read_event;
use midi_parser::decode::read_event_body;
use midi_parser::decode::read_meta_event;
use midi_parser::error::MidiError;
use midi_parser::event::ChannelEvent;
use midi_parser::event::Event;
use midi_parser::event::EventClass;

fn channel(delta: u32, status: u8, params: Vec<u8>) -> Event {
    Event { class: EventClass::Channel, delta, status, params }
}

fn meta(delta: u32, status: u8, params: Vec<u8>) -> Event {
    Event { class: EventClass::Meta, delta, status, params }
}

fn sysex(delta: u32) -> Event {
    Event { class: EventClass::SysEx, delta, status: 0, params: vec![] }
}

#[test]
fn running_status_reuses_the_previous_status() {
    let data = [0x90u8, 60, 64, 62, 70];
    let mut cursor = ByteCursor::new(&data);
    let mut running = 0u8;

    let first = read_event_body(0, &mut cursor, &mut running);
    assert_eq!(first, Ok(channel(0, 0x90, vec![60, 64])));
    assert_eq!(cursor.position(), 3);
    assert_eq!(running, 0x90);

    let second = read_event_body(0, &mut cursor, &mut running);
    assert_eq!(second, Ok(channel(0, 0x90, vec![62, 70])));
    assert_eq!(cursor.position() - 3, 2);
    assert_eq!(cursor.position(), 5);
    assert_eq!(running, 0x90);
    assert_eq!(cursor.remaining(), 0);
}

#[test]
fn running_status_with_delta_times() {
    let data = [0x00u8, 0x90, 60, 64, 0x0a, 62, 70];
    let mut cursor = ByteCursor::new(&data);
    let mut running = 0u8;

    assert_eq!(read_event(&mut cursor, &mut running), Ok(channel(0, 0x90, vec![60, 64])));
    assert_eq!(cursor.position(), 4);
    assert_eq!(read_event(&mut cursor, &mut running), Ok(channel(10, 0x90, vec![62, 70])));
    assert_eq!(cursor.position(), 7);
    assert_eq!(running, 0x90);
}

#[test]
fn new_status_replaces_the_running_status() {
    let data = [0x00u8, 0x90, 60, 64, 0x00, 0x83, 60, 0, 0x05, 61, 1];
    let mut cursor = ByteCursor::new(&data);
    let mut running = 0u8;

    assert_eq!(read_event(&mut cursor, &mut running), Ok(channel(0, 0x90, vec![60, 64])));
    assert_eq!(read_event(&mut cursor, &mut running), Ok(channel(0, 0x83, vec![60, 0])));
    assert_eq!(running, 0x83);
    assert_eq!(read_event(&mut cursor, &mut running), Ok(channel(5, 0x83, vec![61, 1])));
    assert_eq!(cursor.position(), 11);
}

#[test]
fn running_status_with_one_parameter() {
    let data = [0x00u8, 0xc2, 7, 0x01, 9];
    let mut cursor = ByteCursor::new(&data);
    let mut running = 0u8;

    assert_eq!(read_event(&mut cursor, &mut running), Ok(channel(0, 0xc2, vec![7])));
    assert_eq!(cursor.position(), 3);
    assert_eq!(read_event(&mut cursor, &mut running), Ok(channel(1, 0xc2, vec![9])));
    assert_eq!(cursor.position(), 5);
}

#[test]
fn parameter_byte_without_a_running_status_is_unknown() {
    let data = [0x00u8, 0x40, 0x40];
    let mut cursor = ByteCursor::new(&data);
    let mut running = 0u8;
    assert_eq!(read_event(&mut cursor, &mut running), Err(MidiError::UnknownChannelEventType));
    assert_eq!(cursor.position(), 0);
    assert_eq!(running, 0);
}

#[test]
fn status_with_upper_nibble_f_is_unknown() {
    for status in [0xf1u8, 0xf2, 0xf3, 0xf4, 0xf5, 0xf6, 0xf8, 0xf9, 0xfa, 0xfb, 0xfc, 0xfd, 0xfe] {
        let data = [0x00u8, status, 1, 2];
        let mut cursor = ByteCursor::new(&data);
        let mut running = 0x90u8;
        assert_eq!(read_event(&mut cursor, &mut running), Err(MidiError::UnknownChannelEventType));
        assert_eq!(cursor.position(), 0);
        assert_eq!(running, 0x90);
    }
}

#[test]
fn unknown_kind_is_reported_before_truncation() {
    let data = [0x00u8, 0xf1];
    let mut cursor = ByteCursor::new(&data);
    let mut running = 0u8;
    assert_eq!(read_event(&mut cursor, &mut running), Err(MidiError::UnknownChannelEventType));
}

#[test]
fn every_channel_kind_takes_its_parameters() {
    let two = [0x80u8, 0x91, 0xa2, 0xb3, 0xe4];
    for status in two {
        let data = [0x07u8, status, 11, 22, 33];
        let mut cursor = ByteCursor::new(&data);
        let mut running = 0u8;
        assert_eq!(read_event(&mut cursor, &mut running), Ok(channel(7, status, vec![11, 22])));
        assert_eq!(cursor.position(), 4);
        assert_eq!(running, status);
    }
    let one = [0xc5u8, 0xd6];
    for status in one {
        let data = [0x07u8, status, 11, 22, 33];
        let mut cursor = ByteCursor::new(&data);
        let mut running = 0u8;
        assert_eq!(read_event(&mut cursor, &mut running), Ok(channel(7, status, vec![11])));
        assert_eq!(cursor.position(), 3);
        assert_eq!(running, status);
    }
}

#[test]
fn pitch_bend_keeps_low_byte_first() {
    let data = [0x00u8, 0xe0, 0x12, 0x34];
    let mut cursor = ByteCursor::new(&data);
    let mut running = 0u8;
    assert_eq!(read_event(&mut cursor, &mut running), Ok(channel(0, 0xe0, vec![0x12, 0x34])));
}

#[test]
fn channel_event_with_a_missing_parameter_is_truncated() {
    let data = [0x00u8, 0x90, 60];
    let mut cursor = ByteCursor::new(&data);
    let mut running = 0x80u8;
    assert_eq!(read_event(&mut cursor, &mut running), Err(MidiError::TruncatedInput));
    assert_eq!(cursor.position(), 0);
    assert_eq!(running, 0x80);
}

#[test]
fn event_without_a_body_is_truncated() {
    let data = [0x00u8];
    let mut cursor = ByteCursor::new(&data);
    let mut running = 0u8;
    assert_eq!(read_event(&mut cursor, &mut running), Err(MidiError::TruncatedInput));
    assert_eq!(cursor.position(), 0);
}

#[test]
fn event_with_an_unfinished_delta_is_truncated() {
    let data = [0x81u8, 0x80];
    let mut cursor = ByteCursor::new(&data);
    let mut running = 0u8;
    assert_eq!(read_event(&mut cursor, &mut running), Err(MidiError::TruncatedInput));
    assert_eq!(cursor.position(), 0);
}

#[test]
fn delta_time_is_decoded_first_byte_lowest() {
    let data = [0x83u8, 0x05, 0x90, 60, 64];
    let mut cursor = ByteCursor::new(&data);
    let mut running = 0u8;
    assert_eq!(read_event(&mut cursor, &mut running), Ok(channel(3 + 5 * 128, 0x90, vec![60, 64])));
    assert_eq!(cursor.position(), 5);
}

#[test]
fn meta_event_carries_type_and_payload() {
    let data = [0x00u8, 0xff, 0x51, 0x03, 0x07, 0xa1, 0x20, 0x99];
    let mut cursor = ByteCursor::new(&data);
    let mut running = 0u8;
    assert_eq!(read_event(&mut cursor, &mut running), Ok(meta(0, 0x51, vec![0x07, 0xa1, 0x20])));
    assert_eq!(cursor.position(), 7);
    assert_eq!(running, 0);
}

#[test]
fn meta_event_length_is_not_held_against_the_type() {
    // a tempo event with a payload of one byte is taken as it is
    let data = [0x00u8, 0xff, 0x51, 0x01, 0x07];
    let mut cursor = ByteCursor::new(&data);
    let mut running = 0u8;
    assert_eq!(read_event(&mut cursor, &mut running), Ok(meta(0, 0x51, vec![0x07])));
}

#[test]
fn meta_event_with_empty_payload() {
    let data = [0x02u8, 0xff, 0x2f, 0x00];
    let mut cursor = ByteCursor::new(&data);
    let mut running = 0u8;
    assert_eq!(read_event(&mut cursor, &mut running), Ok(meta(2, 0x2f, vec![])));
    assert_eq!(cursor.position(), 4);
}

#[test]
fn meta_event_length_is_a_single_byte() {
    let mut data = vec![0x00u8, 0xff, 0x01, 0x81];
    data.extend(std::iter::repeat(0x55u8).take(0x81));
    let mut cursor = ByteCursor::new(&data);
    let mut running = 0u8;
    assert_eq!(read_event(&mut cursor, &mut running), Ok(meta(0, 0x01, vec![0x55; 0x81])));
    assert_eq!(cursor.remaining(), 0);
}

#[test]
fn meta_event_with_short_payload_is_truncated() {
    let data = [0x00u8, 0xff, 0x01, 0x05, 1, 2, 3];
    let mut cursor = ByteCursor::new(&data);
    let mut running = 0u8;
    assert_eq!(read_event(&mut cursor, &mut running), Err(MidiError::TruncatedInput));
    assert_eq!(cursor.position(), 0);
}

#[test]
fn meta_event_without_type_or_length_is_truncated() {
    let mut running = 0u8;
    let no_type = [0x00u8, 0xff];
    let mut cursor = ByteCursor::new(&no_type);
    assert_eq!(read_event(&mut cursor, &mut running), Err(MidiError::TruncatedInput));
    assert_eq!(cursor.position(), 0);
    let no_length = [0x00u8, 0xff, 0x51];
    let mut cursor = ByteCursor::new(&no_length);
    assert_eq!(read_event(&mut cursor, &mut running), Err(MidiError::TruncatedInput));
    assert_eq!(cursor.position(), 0);
}

#[test]
fn meta_event_leaves_the_running_status() {
    let data = [0x00u8, 0x90, 60, 64, 0x00, 0xff, 0x01, 0x01, 0x41, 0x03, 62, 70];
    let mut cursor = ByteCursor::new(&data);
    let mut running = 0u8;
    assert_eq!(read_event(&mut cursor, &mut running), Ok(channel(0, 0x90, vec![60, 64])));
    assert_eq!(read_event(&mut cursor, &mut running), Ok(meta(0, 0x01, vec![0x41])));
    assert_eq!(running, 0x90);
    assert_eq!(read_event(&mut cursor, &mut running), Ok(channel(3, 0x90, vec![62, 70])));
    assert_eq!(cursor.remaining(), 0);
}

#[test]
fn sysex_markers_are_empty_events() {
    for status in [0xf0u8, 0xf7] {
        let data = [0x05u8, status, 0x03, 1, 2, 3];
        let mut cursor = ByteCursor::new(&data);
        let mut running = 0x90u8;
        assert_eq!(read_event(&mut cursor, &mut running), Ok(sysex(5)));
        // the length and the payload behind the marker stay unread
        assert_eq!(cursor.position(), 2);
        assert_eq!(running, 0x90);
    }
}

#[test]
fn read_channel_event_reads_parameters_only() {
    let data = [60u8, 100, 0x90];
    let mut cursor = ByteCursor::new(&data);
    assert_eq!(read_channel_event(12, 0x95, &mut cursor), Ok(channel(12, 0x95, vec![60, 100])));
    assert_eq!(cursor.position(), 2);
}

#[test]
fn read_channel_event_rejects_unknown_status() {
    let data = [60u8, 100];
    for status in [0x00u8, 0x10, 0x7f, 0xf0, 0xff] {
        let mut cursor = ByteCursor::new(&data);
        assert_eq!(
            read_channel_event(0, status, &mut cursor),
            Err(MidiError::UnknownChannelEventType)
        );
        assert_eq!(cursor.position(), 0);
    }
}

#[test]
fn read_meta_event_starts_at_the_length() {
    let data = [0x02u8, 0xaa, 0xbb, 0xcc];
    let mut cursor = ByteCursor::new(&data);
    assert_eq!(read_meta_event(9, 0x7f, &mut cursor), Ok(meta(9, 0x7f, vec![0xaa, 0xbb])));
    assert_eq!(cursor.position(), 3);
}

#[test]
fn read_meta_event_truncated_restores_the_position() {
    let data = [0x04u8, 0xaa, 0xbb, 0xcc];
    let mut cursor = ByteCursor::new(&data);
    assert_eq!(read_meta_event(9, 0x7f, &mut cursor), Err(MidiError::TruncatedInput));
    assert_eq!(cursor.position(), 0);
}

#[test]
fn channel_kinds_are_classified_by_nibble() {
    assert_eq!(ChannelEvent::from_u8(0x8), Some(ChannelEvent::NoteOff));
    assert_eq!(ChannelEvent::from_u8(0x9), Some(ChannelEvent::NoteOn));
    assert_eq!(ChannelEvent::from_u8(0xa), Some(ChannelEvent::NoteAftertouch));
    assert_eq!(ChannelEvent::from_u8(0xb), Some(ChannelEvent::Controller));
    assert_eq!(ChannelEvent::from_u8(0xc), Some(ChannelEvent::ProgramChange));
    assert_eq!(ChannelEvent::from_u8(0xd), Some(ChannelEvent::ChannelAftertouch));
    assert_eq!(ChannelEvent::from_u8(0xe), Some(ChannelEvent::PitchBend));
    for code in 0u8..8 {
        assert_eq!(ChannelEvent::from_u8(code), None);
    }
    for code in 0xfu8..=0xff {
        assert_eq!(ChannelEvent::from_u8(code), None);
    }
}

#[test]
fn channel_kinds_are_classified_by_status() {
    assert_eq!(ChannelEvent::from_status(0x80), Some(ChannelEvent::NoteOff));
    assert_eq!(ChannelEvent::from_status(0x9f), Some(ChannelEvent::NoteOn));
    assert_eq!(ChannelEvent::from_status(0xe3), Some(ChannelEvent::PitchBend));
    assert_eq!(ChannelEvent::from_status(0x7f), None);
    assert_eq!(ChannelEvent::from_status(0xf0), None);
}

#[test]
fn channel_kinds_know_their_parameter_count() {
    assert_eq!(ChannelEvent::NoteOff.param_len(), 2);
    assert_eq!(ChannelEvent::NoteOn.param_len(), 2);
    assert_eq!(ChannelEvent::NoteAftertouch.param_len(), 2);
    assert_eq!(ChannelEvent::Controller.param_len(), 2);
    assert_eq!(ChannelEvent::ProgramChange.param_len(), 1);
    assert_eq!(ChannelEvent::ChannelAftertouch.param_len(), 1);
    assert_eq!(ChannelEvent::PitchBend.param_len(), 2);
}

#[test]
fn decoded_events_are_well_formed() {
    assert!(channel(0, 0x90, vec![60, 64]).is_well_formed());
    assert!(channel(0, 0xc0, vec![60]).is_well_formed());
    assert!(meta(0, 0x51, vec![1, 2, 3]).is_well_formed());
    assert!(sysex(4).is_well_formed());
    assert!(!channel(0, 0x90, vec![60]).is_well_formed());
    assert!(!channel(0, 0xc0, vec![60, 1]).is_well_formed());
    assert!(!channel(0, 0x20, vec![60, 1]).is_well_formed());
    assert!(!Event { class: EventClass::SysEx, delta: 0, status: 0, params: vec![1] }
        .is_well_formed());
    assert!(!Event { class: EventClass::SysEx, delta: 0, status: 1, params: vec![] }
        .is_well_formed());
}
