use klask::protocol::{fields, identity_text, parse_identity, push_decimal, send_message, MAGIC};

#[test]
fn marker_is_the_reserved_code_point() {
    assert_eq!(MAGIC, '\u{5FFFE}');
}

#[test]
fn fields_of_text_without_marker() {
    assert_eq!(fields(""), vec![String::new()]);
    assert_eq!(fields("plain text"), vec!["plain text".to_string()]);
}

#[test]
fn fields_between_markers() {
    let chunk = format!("a{m}{m}b c{m}", m = MAGIC);
    assert_eq!(fields(&chunk), vec!["a", "", "b c", ""]);
    assert_eq!(fields(&MAGIC.to_string()), vec!["", ""]);
}

#[test]
fn fields_are_what_std_splits() {
    let chunk = format!("\u{e9}{m}12{m}progress-bar{m}\u{1F600} d{m}0.5{m}\nrest", m = MAGIC);
    let expected: Vec<String> = chunk.split(MAGIC).map(|s| s.to_string()).collect();
    assert_eq!(fields(&chunk), expected);
}

#[test]
fn identity_of_digits() {
    assert_eq!(parse_identity("0"), Some(0));
    assert_eq!(parse_identity("42"), Some(42));
    assert_eq!(parse_identity("007"), Some(7));
    assert_eq!(parse_identity("+5"), Some(5));
    assert_eq!(parse_identity("18446744073709551615"), Some(u64::MAX));
}

#[test]
fn identity_of_anything_else() {
    for field in [
        "", "+", "-", "-1", "++1", "1+", " 1", "1 ", "1_000", "0x10", "12a", "1.5", "\n",
        "18446744073709551616", "99999999999999999999999", "\u{663}",
    ] {
        assert_eq!(parse_identity(field), None, "{:?}", field);
    }
}

#[test]
fn identity_is_read_as_std_reads_it() {
    for field in ["0", "+0", "00", "+", "", "-0", "18446744073709551615", "18446744073709551616", "4a"] {
        assert_eq!(parse_identity(field), field.parse::<u64>().ok(), "{:?}", field);
    }
}

#[test]
fn decimal_form() {
    assert_eq!(identity_text(0), "0");
    assert_eq!(identity_text(9), "9");
    assert_eq!(identity_text(10), "10");
    assert_eq!(identity_text(42), "42");
    assert_eq!(identity_text(u64::MAX), "18446744073709551615");
}

#[test]
fn decimal_form_is_appended() {
    let mut out = String::from("id=");
    push_decimal(&mut out, 1203);
    assert_eq!(out, "id=1203");
}

#[test]
fn decimal_form_reads_back() {
    for id in [0u64, 1, 9, 10, 99, 100, 12345678901234567890, u64::MAX] {
        assert_eq!(parse_identity(&identity_text(id)), Some(id));
    }
}

#[test]
fn frame_of_fields() {
    assert_eq!(send_message(&[]), "\u{5FFFE}\n");
    assert_eq!(send_message(&["a", "", "b"]), "\u{5FFFE}a\u{5FFFE}\u{5FFFE}b\u{5FFFE}\n");
}
