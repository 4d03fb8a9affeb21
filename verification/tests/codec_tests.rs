use lru_cache::codec::TextCodec;

#[test]
fn usize_to_text_exact() {
    assert_eq!(0usize.to_text(), "0");
    assert_eq!(7usize.to_text(), "7");
    assert_eq!(10usize.to_text(), "10");
    assert_eq!(12345usize.to_text(), "12345");
    assert_eq!(usize::MAX.to_text(), format!("{}", usize::MAX));
}

#[test]
fn usize_from_text_round_trip() {
    for n in [0usize, 1, 9, 10, 99, 100, 4096, usize::MAX] {
        assert_eq!(usize::from_text(&n.to_text()), Some(n));
    }
}

#[test]
fn usize_from_text_accepts_one_leading_plus() {
    assert_eq!(usize::from_text("+5"), Some(5));
    assert_eq!(usize::from_text("+0"), Some(0));
    assert_eq!(usize::from_text("+123"), Some(123));
}

#[test]
fn usize_from_text_rejects_non_numbers() {
    assert_eq!(usize::from_text(""), None);
    assert_eq!(usize::from_text("+"), None);
    assert_eq!(usize::from_text("++5"), None);
    assert_eq!(usize::from_text("5+"), None);
    assert_eq!(usize::from_text("-5"), None);
    assert_eq!(usize::from_text("1 2"), None);
    assert_eq!(usize::from_text("12x"), None);
    assert_eq!(usize::from_text("x12"), None);
}

#[test]
fn usize_from_text_rejects_overflow() {
    // One digit past the largest value no longer fits.
    let too_big = format!("{}0", usize::MAX);
    assert_eq!(usize::from_text(&too_big), None);
    assert_eq!(usize::from_text("99999999999999999999999999999999"), None);
}

#[test]
fn usize_from_text_accepts_leading_zeros() {
    assert_eq!(usize::from_text("007"), Some(7));
    assert_eq!(usize::from_text("00"), Some(0));
}

#[test]
fn bool_codec_round_trip() {
    assert_eq!(true.to_text(), "true");
    assert_eq!(false.to_text(), "false");
    assert_eq!(bool::from_text("true"), Some(true));
    assert_eq!(bool::from_text("false"), Some(false));
    assert_eq!(bool::from_text("True"), None);
    assert_eq!(bool::from_text(""), None);
    assert_eq!(bool::from_text("1"), None);
}

#[test]
fn string_codec_is_identity() {
    assert_eq!("value with spaces".to_string().to_text(), "value with spaces");
    assert_eq!(
        String::from_text("anything"),
        Some("anything".to_string())
    );
    assert_eq!(String::from_text(""), Some(String::new()));
}
