use bio::bases::{decode_range, Bases};
use bio::text::{chars_of, field_end, is_space, line_end, nth_field, string_of, trimmed_end};

#[test]
fn is_space_agrees_with_the_standard_library() {
    let mut code: u32 = 0;
    while code <= 0x3100 {
        if let Some(c) = char::from_u32(code) {
            assert_eq!(is_space(c), c.is_whitespace(), "U+{:04X}", code);
        }
        code += 1;
    }
    assert!(!is_space('\u{FEFF}'));
    assert!(!is_space('\u{10FFFF}'));
}

#[test]
fn chars_of_and_string_of_are_inverse() {
    let text = "héllo wörld\n";
    let chars = chars_of(text);

    assert_eq!(chars.len(), 12);
    assert_eq!(string_of(&chars, 0, chars.len()), text);
    assert_eq!(string_of(&chars, 1, 5), "éllo");
    assert_eq!(string_of(&chars, 3, 3), "");
}

#[test]
fn line_end_stops_behind_the_line_feed() {
    let chars = chars_of("ab\n\ncd");

    assert_eq!(line_end(&chars, 0), 3);
    assert_eq!(line_end(&chars, 2), 3);
    assert_eq!(line_end(&chars, 3), 4);
    assert_eq!(line_end(&chars, 4), 6);
    assert_eq!(line_end(&chars, 6), 6);
}

#[test]
fn trimmed_end_drops_trailing_white_space_only() {
    let chars = chars_of("  a b \t\r\n");

    assert_eq!(trimmed_end(&chars, 0, chars.len()), 5);
    assert_eq!(trimmed_end(&chars, 0, 2), 0);
    assert_eq!(trimmed_end(&chars, 2, 3), 3);
    assert_eq!(trimmed_end(&chars, 5, chars.len()), 5);
}

#[test]
fn field_end_stops_at_the_separator() {
    let chars = chars_of("ab:cd::e");

    assert_eq!(field_end(&chars, 0, 8, ':'), 2);
    assert_eq!(field_end(&chars, 3, 8, ':'), 5);
    assert_eq!(field_end(&chars, 6, 8, ':'), 6);
    assert_eq!(field_end(&chars, 7, 8, ':'), 8);
    assert_eq!(field_end(&chars, 0, 2, ':'), 2);
    assert_eq!(field_end(&chars, 0, 8, '/'), 8);
}

#[test]
fn nth_field_counts_empty_fields() {
    let chars = chars_of("ab:cd::e:");

    assert_eq!(nth_field(&chars, 0, 9, ':', 0), Some((0, 2)));
    assert_eq!(nth_field(&chars, 0, 9, ':', 1), Some((3, 5)));
    assert_eq!(nth_field(&chars, 0, 9, ':', 2), Some((6, 6)));
    assert_eq!(nth_field(&chars, 0, 9, ':', 3), Some((7, 8)));
    assert_eq!(nth_field(&chars, 0, 9, ':', 4), Some((9, 9)));
    assert_eq!(nth_field(&chars, 0, 9, ':', 5), None);
    assert_eq!(nth_field(&chars, 0, 0, ':', 0), Some((0, 0)));
    assert_eq!(nth_field(&chars, 0, 0, ':', 1), None);
    assert_eq!(nth_field(&chars, 3, 5, ':', 1), None);
}

#[test]
fn decode_range_decodes_a_part_of_the_text() {
    let chars = chars_of("xxACgtnxx");

    assert_eq!(decode_range(&chars, 2, 7), Some(Bases::from_str("ACGTN")));
    assert_eq!(decode_range(&chars, 2, 2), Some(Bases::from_str("")));
    assert_eq!(decode_range(&chars, 1, 7), None);
    assert_eq!(decode_range(&chars, 2, 8), None);
}
