use hexpoke::dump::{hex_digit, hexdump, hexdump_line};

fn blanks(n: usize) -> String {
    " ".repeat(n)
}

#[test]
fn empty_data_gives_no_lines() {
    assert!(hexdump(&[], 16).is_empty());
}

#[test]
fn three_bytes_one_padded_line() {
    let lines = hexdump(&[0x1f, 0x8b, 0x08], 16);
    assert_eq!(lines.len(), 1);
    let expected = format!(
        "00000000  1f 8b 08{} {}  |...{}|",
        blanks(15),
        blanks(24),
        blanks(13)
    );
    assert_eq!(lines[0], expected);
}

#[test]
fn full_line_has_half_line_gap() {
    let data: Vec<u8> = (0x30..0x40).collect();
    let lines = hexdump(&data, 16);
    assert_eq!(
        lines,
        vec![
            "00000000  30 31 32 33 34 35 36 37  38 39 3a 3b 3c 3d 3e 3f  |0123456789:;<=>?|"
                .to_string()
        ]
    );
}

#[test]
fn line_count_rounds_up_and_offsets_step_by_width() {
    let data = vec![0x41u8; 33];
    let lines = hexdump(&data, 16);
    assert_eq!(lines.len(), 3);
    assert!(lines[0].starts_with("00000000 "));
    assert!(lines[1].starts_with("00000010 "));
    assert!(lines[2].starts_with("00000020 "));
    let exact = hexdump(&vec![0u8; 32], 16);
    assert_eq!(exact.len(), 2);
}

#[test]
fn last_line_slots_are_blank() {
    let lines = hexdump(&[1, 2, 3, 4, 5], 4);
    assert_eq!(lines.len(), 2);
    assert_eq!(lines[0], "00000000  01 02  03 04  |....|");
    assert_eq!(lines[1], "00000004  05            |.   |");
}

#[test]
fn printable_and_other_bytes() {
    let lines = hexdump(&[0x41, 0x00, 0xff, 0x20, 0x7e, 0x7f, 0x1f, 0x80], 8);
    assert_eq!(lines, vec!["00000000  41 00 ff 20  7e 7f 1f 80  |A.. ~...|".to_string()]);
}

#[test]
fn width_one_has_no_gaps() {
    let lines = hexdump(b"AB", 1);
    assert_eq!(lines, vec!["00000000 41  |A|".to_string(), "00000001 42  |B|".to_string()]);
}

#[test]
fn odd_width_groups_by_half_rounded_down() {
    let lines = hexdump(&[0x61, 0x62, 0x63, 0x64, 0x65], 5);
    assert_eq!(lines, vec!["00000000  61 62  63 64  65  |abcde|".to_string()]);
    let narrow = hexdump(&[0x61, 0x62], 3);
    assert_eq!(narrow, vec!["00000000  61  62      |ab |".to_string()]);
}

#[test]
fn offset_header_is_zero_padded_lowercase() {
    assert!(hexdump_line(&[0u8; 4], 2, 0xab).starts_with("000000ab "));
}

#[test]
fn offset_header_grows_past_eight_digits() {
    let line = hexdump_line(&[], 2, 0x1_2345_6789);
    assert_eq!(line, "123456789          |  |");
}

#[test]
fn line_at_offset_inside_data() {
    let line = hexdump_line(&[0x10, 0x11, 0x12, 0x13], 4, 2);
    assert_eq!(line, "00000002  12 13         |..  |");
}

#[test]
fn digits_are_lowercase() {
    assert_eq!(hex_digit(0), '0');
    assert_eq!(hex_digit(9), '9');
    assert_eq!(hex_digit(10), 'a');
    assert_eq!(hex_digit(15), 'f');
}

#[test]
fn typed_bytes_render_as_one_line() {
    let data = hexpoke::parse::parse_hex("1f 8b 08").unwrap_or_default();
    let lines = hexdump(&data, hexpoke::dump::DEFAULT_LINE_WIDTH);
    assert_eq!(lines.len(), 1);
    assert!(lines[0].starts_with("00000000  1f 8b 08   "));
    assert!(lines[0].ends_with("  |...             |"));
}
