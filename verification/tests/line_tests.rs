use hexdump::make_line;
use hexdump::DumpOptions;

fn opts(bytes_per_line: u64, uppercase: bool) -> DumpOptions {
    DumpOptions { bytes_per_line, start_offset: 0, dump_length: 0, uppercase }
}

#[test]
fn label_is_zero_padded_to_eight_digits() {
    let line = make_line(&[], 0, &opts(0, true));
    assert_eq!(line, "00000000:  ");
    let line = make_line(&[], 42, &opts(0, true));
    assert_eq!(line, "00000042:  ");
    let line = make_line(&[], 99999999, &opts(0, true));
    assert_eq!(line, "99999999:  ");
}

#[test]
fn label_grows_past_eight_digits() {
    let line = make_line(&[], 123456789, &opts(0, true));
    assert_eq!(line, "123456789:  ");
    let line = make_line(&[], 100000000, &opts(0, true));
    assert_eq!(line, "100000000:  ");
}

#[test]
fn short_chunk_is_padded_on_both_fields() {
    let line = make_line(&[0x01, 0xFE], 7, &opts(4, true));
    assert_eq!(line, "00000007: 01 FE        ..  ");
}

#[test]
fn full_chunk_has_no_padding() {
    let line = make_line(&[0x30, 0x31, 0x32, 0x33], 0, &opts(4, false));
    assert_eq!(line, "00000000: 30 31 32 33  0123");
}

#[test]
fn lowercase_digits_in_line() {
    let line = make_line(&[0xDE, 0xAD], 0, &opts(2, false));
    assert_eq!(line, "00000000: de ad  ..");
    let line = make_line(&[0xDE, 0xAD], 0, &opts(2, true));
    assert_eq!(line, "00000000: DE AD  ..");
}

#[test]
fn every_byte_value_renders_two_hex_digits() {
    for b in 0u8..=255 {
        let line = make_line(&[b], 0, &opts(1, true));
        let expected = format!("00000000: {:02X}  {}", b, if (0x20..=0x7F).contains(&b) {
            b as char
        } else {
            '.'
        });
        assert_eq!(line, expected);
    }
}
