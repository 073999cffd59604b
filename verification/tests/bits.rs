use midi_parser::bits::high4;
use midi_parser::bits::low4;

#[test]
fn high4_takes_the_upper_nibble() {
    assert_eq!(high4(0x9c), 0x9);
    assert_eq!(high4(0x0f), 0x0);
    assert_eq!(high4(0xff), 0xf);
}

#[test]
fn low4_takes_the_lower_nibble() {
    assert_eq!(low4(0x9c), 0xc);
    assert_eq!(low4(0xf0), 0x0);
    assert_eq!(low4(0xff), 0xf);
}
