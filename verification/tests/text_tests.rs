use tali_layout::text::{
    char_boundary, contains_byte, contains_line_break, count_byte, find_byte, find_char, find_sub,
    decode_scalar, rfind_byte, rfind_byte_in, trim_end_index,
};
use tali_layout::width::{columns_exceed, text_width};

fn chars(text: &str) -> Vec<char> {
    text.chars().collect()
}

#[test]
fn line_breaks() {
    let s = b"ab\rc\nd";
    assert!(contains_line_break(s, 0, 6));
    assert!(contains_line_break(s, 2, 3));
    assert!(!contains_line_break(s, 3, 4));
    assert!(!contains_line_break(s, 0, 2));
}

#[test]
fn finding_bytes() {
    let s = b"a,b,,c";
    assert_eq!(find_byte(s, b',', 0), Some(1));
    assert_eq!(find_byte(s, b',', 2), Some(3));
    assert_eq!(find_byte(s, b'x', 0), None);
    assert_eq!(rfind_byte(s, b',', 6), Some(4));
    assert_eq!(rfind_byte(s, b',', 3), Some(1));
    assert_eq!(rfind_byte(s, b',', 1), None);
    assert_eq!(rfind_byte_in(s, b',', 2, 4), Some(3));
    assert_eq!(rfind_byte_in(s, b',', 2, 3), None);
    assert_eq!(count_byte(s, b',', 0, 6), 3);
    assert_eq!(count_byte(s, b',', 2, 4), 1);
    assert!(contains_byte(s, b'c', 0, 6));
    assert!(!contains_byte(s, b'c', 0, 5));
}

#[test]
fn finding_substrings() {
    let s = b"x == y = z";
    assert_eq!(find_sub(s, b"=", 0, 10), Some(2));
    assert_eq!(find_sub(s, b"= ", 0, 10), Some(3));
    assert_eq!(find_sub(s, b"= z", 0, 9), None);
    assert_eq!(find_sub(s, b"", 4, 4), Some(4));
    assert_eq!(find_sub(s, b"y", 0, 2), None);
}

#[test]
fn char_boundaries() {
    let s = "aé".as_bytes();
    assert!(char_boundary(s, 0));
    assert!(char_boundary(s, 1));
    assert!(!char_boundary(s, 2));
    assert!(char_boundary(s, 3));
    assert!(!char_boundary(s, 4));
}

#[test]
fn trimming_white_space() {
    let s = "ab \t\u{a0}\u{2003}".as_bytes();
    assert_eq!(trim_end_index(s, 0, s.len()), 2);
    assert_eq!(trim_end_index(s, 0, 1), 1);
    let s = "x\u{e9}".as_bytes();
    assert_eq!(trim_end_index(s, 0, s.len()), 3);
    let s = b"   ";
    assert_eq!(trim_end_index(s, 1, 3), 1);
}

#[test]
fn finding_chars() {
    assert_eq!(find_char(&chars("1.5.2"), '.'), Some(1));
    assert_eq!(find_char(&chars("15"), '.'), None);
}

#[test]
fn widths_of_text() {
    assert_eq!(text_width(&chars("abc"), 4), Some(3));
    assert_eq!(text_width(&chars("a\tb"), 4), Some(6));
    assert_eq!(text_width(&chars("a\tb"), 2), Some(4));
    assert_eq!(text_width(&chars("日本"), 4), Some(4));
    assert_eq!(text_width(&chars("a\nb"), 4), None);
    assert_eq!(text_width(&chars("a\rb"), 4), Some(2));
    assert_eq!(text_width(&chars(""), 4), Some(0));
}

#[test]
fn widths_overflowing_u32_are_none() {
    let tabs: Vec<char> = vec!['\t'; 3];
    assert_eq!(text_width(&tabs, u32::MAX / 2), None);
    assert_eq!(text_width(&tabs, u32::MAX / 3), Some(u32::MAX / 3 * 3));
}

#[test]
fn decoding_scalars() {
    let s = "a\u{e9}\u{65e5}\u{1f600}".as_bytes();
    assert_eq!(decode_scalar(s, 0, s.len()), Some(('a', 1)));
    assert_eq!(decode_scalar(s, 1, s.len()), Some(('\u{e9}', 2)));
    assert_eq!(decode_scalar(s, 3, s.len()), Some(('\u{65e5}', 3)));
    assert_eq!(decode_scalar(s, 6, s.len()), Some(('\u{1f600}', 4)));
    assert_eq!(decode_scalar(s, 2, s.len()), None);
    assert_eq!(decode_scalar(s, 1, 2), None);
    assert_eq!(decode_scalar(&[0xFF], 0, 1), None);
    assert_eq!(decode_scalar(&[0xC0, 0x80], 0, 2), None);
    assert_eq!(decode_scalar(&[0xED, 0xA0, 0x80], 0, 3), None);
    assert_eq!(decode_scalar(&[0xF4, 0x90, 0x80, 0x80], 0, 4), None);
    assert_eq!(decode_scalar(&[0xF4, 0x8F, 0xBF, 0xBF], 0, 4), Some(('\u{10ffff}', 4)));
}

#[test]
fn columns_of_utf8_text() {
    let s = "a\u{e9}\t\u{65e5}".as_bytes();
    assert_eq!(text_width(&chars("a\u{e9}\t\u{65e5}"), 4), Some(8));
    assert!(columns_exceed(s, 0, s.len(), 7, 4));
    assert!(!columns_exceed(s, 0, s.len(), 8, 4));
    assert!(!columns_exceed(s, 0, 3, 2, 4));
    assert!(columns_exceed(s, 0, 3, 1, 4));
    let bad = [b'a', 0xFF, b'b'];
    assert!(!columns_exceed(&bad, 0, 3, 2, 4));
    assert!(columns_exceed(&bad, 0, 3, 1, 4));
}
