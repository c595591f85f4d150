use hexdump::dump;
use hexdump::DumpError;
use hexdump::DumpOptions;

fn opts(bytes_per_line: u64, start_offset: u64, dump_length: u64, uppercase: bool) -> DumpOptions {
    DumpOptions { bytes_per_line, start_offset, dump_length, uppercase }
}

#[test]
fn hello_uppercase_single_line() {
    let buffer = [0x48u8, 0x65, 0x6C, 0x6C, 0x6F];
    let lines = dump(&buffer, &opts(16, 0, 5, true)).unwrap();
    assert_eq!(lines.len(), 1);
    let mut expected = String::from("00000000: 48 65 6C 6C 6F ");
    for _ in 0..11 {
        expected.push_str("   ");
    }
    expected.push_str(" Hello");
    for _ in 0..11 {
        expected.push(' ');
    }
    assert_eq!(lines[0], expected);
}

#[test]
fn empty_window_no_lines() {
    let buffer = [1u8, 2, 3];
    let lines = dump(&buffer, &opts(16, 0, 0, true)).unwrap();
    assert_eq!(lines.len(), 0);
}

#[test]
fn empty_buffer_empty_window_no_lines() {
    let buffer: [u8; 0] = [];
    let lines = dump(&buffer, &opts(16, 0, 0, true)).unwrap();
    assert_eq!(lines.len(), 0);
}

#[test]
fn range_error_no_partial_output() {
    let buffer = [10u8, 20, 30, 40, 50];
    let r = dump(&buffer, &opts(16, 3, 5, true));
    assert_eq!(r, Err(DumpError::InvalidRange));
}

#[test]
fn start_at_end_rejected() {
    let buffer = [10u8, 20, 30, 40, 50];
    assert_eq!(dump(&buffer, &opts(16, 5, 0, true)), Err(DumpError::InvalidRange));
    assert_eq!(dump(&buffer, &opts(16, 7, 0, true)), Err(DumpError::InvalidRange));
}

#[test]
fn start_past_end_of_empty_buffer_rejected() {
    let buffer: [u8; 0] = [];
    assert_eq!(dump(&buffer, &opts(16, 1, 0, true)), Err(DumpError::InvalidRange));
}

#[test]
fn zero_bytes_per_line_rejected() {
    let buffer = [1u8, 2, 3];
    assert_eq!(dump(&buffer, &opts(0, 0, 3, true)), Err(DumpError::InvalidConfiguration));
}

#[test]
fn line_count_is_length_ceiling() {
    let buffer: Vec<u8> = (0u8..=255).collect();
    assert_eq!(dump(&buffer, &opts(16, 0, 40, true)).unwrap().len(), 3);
    assert_eq!(dump(&buffer, &opts(16, 0, 32, true)).unwrap().len(), 2);
    assert_eq!(dump(&buffer, &opts(16, 0, 1, true)).unwrap().len(), 1);
    assert_eq!(dump(&buffer, &opts(7, 0, 40, true)).unwrap().len(), 6);
}

#[test]
fn offsets_step_by_line_width() {
    let buffer = [0u8; 40];
    let lines = dump(&buffer, &opts(16, 0, 40, true)).unwrap();
    assert!(lines[0].starts_with("00000000: "));
    assert!(lines[1].starts_with("00000016: "));
    assert!(lines[2].starts_with("00000032: "));
}

#[test]
fn offsets_start_at_start_offset() {
    let buffer = [0x48u8, 0x65, 0x6C, 0x6C, 0x6F];
    let lines = dump(&buffer, &opts(16, 2, 2, true)).unwrap();
    assert_eq!(lines.len(), 1);
    assert!(lines[0].starts_with("00000002: 6C 6C "));
}

#[test]
fn full_lines_carry_all_groups() {
    let buffer: Vec<u8> = (0u8..40).collect();
    let lines = dump(&buffer, &opts(16, 0, 40, true)).unwrap();
    for line in &lines[..lines.len() - 1] {
        let hex_field = &line[10..10 + 48];
        let groups: Vec<&str> = hex_field
            .as_bytes()
            .chunks(3)
            .map(|g| std::str::from_utf8(g).unwrap())
            .collect();
        assert_eq!(groups.len(), 16);
        for g in groups {
            assert!(g.as_bytes()[0] != b' ');
            assert!(g.as_bytes()[1] != b' ');
            assert_eq!(g.as_bytes()[2], b' ');
        }
    }
}

#[test]
fn all_lines_share_one_width() {
    let buffer: Vec<u8> = (0u8..45).collect();
    let lines = dump(&buffer, &opts(16, 0, 45, true)).unwrap();
    assert_eq!(lines.len(), 3);
    for line in &lines {
        assert_eq!(line.chars().count(), 11 + 4 * 16);
    }
}

fn decode_hex_fields(lines: &[String]) -> Vec<u8> {
    let mut bytes = Vec::new();
    for line in lines {
        let after_label = &line[10..];
        for group in after_label.as_bytes().chunks(3) {
            if group.len() < 3 || group[0] == b' ' {
                break;
            }
            let hi = (group[0] as char).to_digit(16).unwrap() as u8;
            let lo = (group[1] as char).to_digit(16).unwrap() as u8;
            bytes.push(16 * hi + lo);
        }
    }
    bytes
}

#[test]
fn hex_fields_round_trip_to_window() {
    let buffer: Vec<u8> = (0u8..=255).collect();
    let lines = dump(&buffer, &opts(16, 3, 200, true)).unwrap();
    assert_eq!(decode_hex_fields(&lines), buffer[3..203].to_vec());
    let lines = dump(&buffer, &opts(10, 7, 33, false)).unwrap();
    assert_eq!(decode_hex_fields(&lines), buffer[7..40].to_vec());
}

#[test]
fn glyph_boundaries() {
    assert_eq!(hexdump::glyph(0x1F), '.');
    assert_eq!(hexdump::glyph(0x20), ' ');
    assert_eq!(hexdump::glyph(0x41), 'A');
    assert_eq!(hexdump::glyph(0x7E), '~');
    assert_eq!(hexdump::glyph(0x7F), '\u{7f}');
    assert_eq!(hexdump::glyph(0x80), '.');
    assert_eq!(hexdump::glyph(0x00), '.');
    assert_eq!(hexdump::glyph(0xFF), '.');
}

#[test]
fn char_field_renders_glyphs_and_padding() {
    let buffer = [0x41u8, 0x00, 0x7F, 0x80];
    let lines = dump(&buffer, &opts(8, 0, 4, true)).unwrap();
    assert_eq!(lines.len(), 1);
    let char_field = &lines[0][10 + 24..];
    assert_eq!(char_field, " A.\u{7f}.    ");
}

#[test]
fn hex_case_follows_option() {
    let buffer = [0xABu8, 0xCD, 0x1F];
    let upper = dump(&buffer, &opts(16, 0, 3, true)).unwrap();
    assert!(upper[0].starts_with("00000000: AB CD 1F "));
    let lower = dump(&buffer, &opts(16, 0, 3, false)).unwrap();
    assert!(lower[0].starts_with("00000000: ab cd 1f "));
    let hex_field = &upper[0][10..10 + 48];
    assert!(!hex_field.chars().any(|c| ('a'..='f').contains(&c)));
    let hex_field = &lower[0][10..10 + 48];
    assert!(!hex_field.chars().any(|c| ('A'..='F').contains(&c)));
}
