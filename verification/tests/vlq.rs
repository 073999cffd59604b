use midi_parser::cursor::ByteCursor;
use midi_parser::error::MidiError;
use midi_parser::vlq::read_vlq;

fn decode(data: &[u8]) -> (Result<u32, MidiError>, usize) {
    let mut cursor = ByteCursor::new(data);
    let value = read_vlq(&mut cursor);
    (value, cursor.position())
}

#[test]
fn vlq_single_byte_values_round_trip() {
    assert_eq!(decode(&[0x00]), (Ok(0), 1));
    assert_eq!(decode(&[0x01]), (Ok(1), 1));
    assert_eq!(decode(&[0x40]), (Ok(64), 1));
    assert_eq!(decode(&[0x7f]), (Ok(127), 1));
}

#[test]
fn vlq_two_byte_value_with_equal_digits_round_trips() {
    // 129 is the digits (1, 1) in base 128, written 0x81 0x01
    assert_eq!(decode(&[0x81, 0x01]), (Ok(129), 2));
}

#[test]
fn vlq_three_byte_value_with_mirrored_digits_round_trips() {
    // 33154 is the digits (2, 3, 2) in base 128
    assert_eq!(decode(&[0x82, 0x83, 0x02]), (Ok(33154), 3));
}

#[test]
fn vlq_largest_four_byte_value_round_trips() {
    assert_eq!(decode(&[0xff, 0xff, 0xff, 0x7f]), (Ok(0x0fff_ffff), 4));
}

#[test]
fn vlq_first_byte_has_the_lowest_weight() {
    // the standard encoding of 128 is 0x81 0x00; its digits come back reversed
    assert_eq!(decode(&[0x81, 0x00]), (Ok(1), 2));
    assert_eq!(decode(&[0x80, 0x01]), (Ok(128), 2));
    assert_eq!(decode(&[0x83, 0x05]), (Ok(3 + 5 * 128), 2));
    assert_eq!(decode(&[0x81, 0x82, 0x83, 0x04]), (Ok(1 + 2 * 128 + 3 * 16384 + 4 * 2097152), 4));
}

#[test]
fn vlq_consumes_as_many_bytes_as_the_encoding_has() {
    // standard encodings of 0x2000 (two bytes), 0x10_0000 (three), 0x800_0000 (four)
    assert_eq!(decode(&[0xc0, 0x00]).1, 2);
    assert_eq!(decode(&[0xc0, 0x80, 0x00]).1, 3);
    assert_eq!(decode(&[0xc0, 0x80, 0x80, 0x00]).1, 4);
}

#[test]
fn vlq_leaves_what_follows_unread() {
    let data = [0x05u8, 0x90, 0x3c];
    let mut cursor = ByteCursor::new(&data);
    assert_eq!(read_vlq(&mut cursor), Ok(5));
    assert_eq!(cursor.position(), 1);
    assert_eq!(cursor.read_u8(), Ok(0x90));
}

#[test]
fn vlq_starts_at_the_cursor() {
    let data = [0xffu8, 0x81, 0x01, 0x00];
    let mut cursor = ByteCursor::new(&data);
    assert_eq!(cursor.read_u8(), Ok(0xff));
    assert_eq!(read_vlq(&mut cursor), Ok(129));
    assert_eq!(cursor.position(), 3);
}

#[test]
fn vlq_without_a_last_byte_is_truncated() {
    assert_eq!(decode(&[0x81]), (Err(MidiError::TruncatedInput), 0));
    assert_eq!(decode(&[0x80, 0xff, 0x80]), (Err(MidiError::TruncatedInput), 0));
}

#[test]
fn vlq_on_an_empty_source_is_truncated() {
    assert_eq!(decode(&[]), (Err(MidiError::TruncatedInput), 0));
}

#[test]
fn vlq_truncated_behind_other_bytes_restores_the_position() {
    let data = [0x00u8, 0x81, 0x82];
    let mut cursor = ByteCursor::new(&data);
    assert_eq!(cursor.read_u8(), Ok(0));
    assert_eq!(read_vlq(&mut cursor), Err(MidiError::TruncatedInput));
    assert_eq!(cursor.position(), 1);
}

#[test]
fn vlq_fifth_byte_keeps_its_low_four_bits() {
    assert_eq!(decode(&[0x80, 0x80, 0x80, 0x80, 0x7f]), (Ok(0xf000_0000), 5));
    assert_eq!(decode(&[0xff, 0xff, 0xff, 0xff, 0x0f]), (Ok(0xffff_ffff), 5));
    assert_eq!(decode(&[0x81, 0x80, 0x80, 0x80, 0x10]), (Ok(1), 5));
}

#[test]
fn vlq_bytes_behind_the_fifth_add_nothing() {
    assert_eq!(decode(&[0x81, 0x80, 0x80, 0x80, 0x80, 0x01]), (Ok(1), 6));
    assert_eq!(decode(&[0x80, 0x80, 0x80, 0x80, 0x81, 0xff, 0xff, 0x7f]), (Ok(0x1000_0000), 8));
}
