use microps_utils::hexdump::{render_hexdump, AsciiStyle};

const BORDER: &str = "+------+-------------------------------------------------+------------------+\n";

fn sample() -> Vec<u8> {
    let mut d = b"Hello, World!".to_vec();
    d.extend_from_slice(&[0x00, 0x01, 0xff]);
    d.extend_from_slice(b"ABC");
    d
}

#[test]
fn packed_dump_of_two_rows() {
    let text = String::from_utf8(render_hexdump(&sample(), AsciiStyle::Packed)).unwrap();
    let expected = format!(
        "{}{}{}{}",
        BORDER,
        "| 0000 | 48 65 6c 6c 6f 2c 20 57 6f 72 6c 64 21 00 01 ff | Hello,.World!... |\n",
        "| 0010 | 41 42 43                                        | ABC              |\n",
        BORDER
    );
    assert_eq!(text, expected);
}

#[test]
fn spaced_dump_follows_printable_bytes_with_a_space() {
    let text = String::from_utf8(render_hexdump(&sample(), AsciiStyle::Spaced)).unwrap();
    let expected = format!(
        "{}{}{}{}",
        BORDER,
        "| 0000 | 48 65 6c 6c 6f 2c 20 57 6f 72 6c 64 21 00 01 ff | H e l l o , .W o r l d ! ... |\n",
        "| 0010 | 41 42 43                                        | A B C               |\n",
        BORDER
    );
    assert_eq!(text, expected);
}

#[test]
fn dump_of_nothing_is_two_borders() {
    let text = String::from_utf8(render_hexdump(&[], AsciiStyle::Packed)).unwrap();
    assert_eq!(text, format!("{}{}", BORDER, BORDER));
}

#[test]
fn exact_row_has_no_padding() {
    let data: Vec<u8> = (0x30u8..0x40).collect();
    let text = String::from_utf8(render_hexdump(&data, AsciiStyle::Packed)).unwrap();
    let expected = format!(
        "{}{}{}",
        BORDER,
        "| 0000 | 30 31 32 33 34 35 36 37 38 39 3a 3b 3c 3d 3e 3f | 0123456789:;<=>? |\n",
        BORDER
    );
    assert_eq!(text, expected);
}

#[test]
fn offsets_grow_past_four_digits() {
    let data = vec![0x41u8; 0x10001];
    let text = String::from_utf8(render_hexdump(&data, AsciiStyle::Packed)).unwrap();
    let lines: Vec<&str> = text.lines().collect();
    assert_eq!(lines.len(), 0x1001 + 2);
    assert!(lines[0x1000].starts_with("| fff0 | "));
    assert!(lines[0x1001].starts_with("| 10000 | 41    "));
}

#[test]
fn packed_lines_are_aligned() {
    let data: Vec<u8> = (0..=255u8).chain(0..40u8).collect();
    let text = String::from_utf8(render_hexdump(&data, AsciiStyle::Packed)).unwrap();
    let lines: Vec<&str> = text.split_inclusive('\n').collect();
    assert_eq!(lines.len(), (data.len() + 15) / 16 + 2);
    for line in lines {
        assert_eq!(line.len(), 78);
    }
}

#[test]
fn blanks_and_controls_show_as_dots() {
    let data = [0x20u8, 0x7f, 0x0a, 0x21, 0x7e];
    let text = String::from_utf8(render_hexdump(&data, AsciiStyle::Packed)).unwrap();
    assert!(text.contains("| 20 7f 0a 21 7e "));
    assert!(text.contains("| ...!~            |\n"));
}
