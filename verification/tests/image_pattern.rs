use rustmpeg::error::ErrorKind;
use rustmpeg::image2::{scan_next, scan_probe, validate_limit, ImagePattern, ScanState, DEFAULT_SCAN_LIMIT};

#[test]
fn patterns_expand_plain_and_zero_padded_numbers() {
    let plain = ImagePattern::parse("frame-%d.ppm").unwrap();
    assert_eq!(plain.path_for(12).unwrap(), String::from("frame-12.ppm"));

    let padded = ImagePattern::parse("frame-%06d.ppm").unwrap();
    assert_eq!(padded.path_for(12).unwrap(), String::from("frame-000012.ppm"));
}

#[test]
fn escaped_percent_is_preserved() {
    let pattern = ImagePattern::parse("100%%-%03d.pgm").unwrap();
    assert_eq!(pattern.path_for(7).unwrap(), String::from("100%-007.pgm"));
}

#[test]
fn malformed_or_multiple_placeholders_are_rejected() {
    assert!(ImagePattern::parse("frame-%s.ppm").is_err());
    assert!(ImagePattern::parse("frame-%00d.ppm").is_err());
    assert!(ImagePattern::parse("%d-%d.ppm").is_err());
    assert!(ImagePattern::parse("frame-%99d.ppm").is_err());
}

#[test]
fn single_paths_and_sequences_are_told_apart() {
    let single = ImagePattern::parse("still.png").unwrap();
    assert!(!single.is_sequence());
    assert_eq!(single.path_for(5).unwrap(), String::from("still.png"));
    assert_eq!(ImagePattern::parse("50%%.png").unwrap(), ImagePattern::Single(String::from("50%%.png")));
    assert!(ImagePattern::parse("seq-%d.png").unwrap().is_sequence());
}

#[test]
fn negative_and_wide_numbers_render_like_printf() {
    let padded = ImagePattern::parse("f%04d").unwrap();
    assert_eq!(padded.path_for(-7).unwrap(), String::from("f-007"));
    assert_eq!(padded.path_for(123456).unwrap(), String::from("f123456"));
    let plain = ImagePattern::parse("%d.pgm").unwrap();
    assert_eq!(plain.path_for(-42).unwrap(), String::from("-42.pgm"));
    assert_eq!(plain.path_for(i64::MIN).unwrap(), String::from("-9223372036854775808.pgm"));
    assert_eq!(plain.path_for(0).unwrap(), String::from("0.pgm"));
}

#[test]
fn placeholder_errors_carry_their_kinds() {
    assert_eq!(ImagePattern::parse("end%").unwrap_err().kind(), ErrorKind::InvalidArgument);
    assert_eq!(ImagePattern::parse("w%019d").unwrap_err().kind(), ErrorKind::InvalidArgument);
    assert_eq!(
        ImagePattern::parse("w%0999999999999999999999d").unwrap_err().kind(),
        ErrorKind::Overflow
    );
    assert!(ImagePattern::parse("w%018d").is_ok());
}

#[test]
fn scan_limits_are_bounded() {
    assert_eq!(validate_limit(None).unwrap(), DEFAULT_SCAN_LIMIT);
    assert_eq!(validate_limit(Some(3)).unwrap(), 3);
    assert!(validate_limit(Some(0)).is_err());
    assert!(validate_limit(Some(DEFAULT_SCAN_LIMIT + 1)).is_err());
}

#[test]
fn sequence_scan_searches_then_collects_until_a_gap() {
    let mut state = ScanState::Searching { offset: 0 };
    assert_eq!(scan_probe(7, 3, 5, state).unwrap(), Some(7));
    state = scan_next(state, 7, false);
    assert_eq!(state, ScanState::Searching { offset: 1 });
    assert_eq!(scan_probe(7, 3, 5, state).unwrap(), Some(8));
    state = scan_next(state, 8, true);
    assert_eq!(state, ScanState::Collecting { first: 8, count: 0 });
    assert_eq!(scan_probe(7, 3, 5, state).unwrap(), Some(8));
    state = scan_next(state, 8, true);
    assert_eq!(scan_probe(7, 3, 5, state).unwrap(), Some(9));
    state = scan_next(state, 9, false);
    assert_eq!(state, ScanState::Finished);
    assert_eq!(scan_probe(7, 3, 5, state).unwrap(), None);
    assert_eq!(scan_probe(7, 3, 1, ScanState::Collecting { first: 8, count: 1 }).unwrap(), None);
    assert_eq!(scan_probe(7, 3, 5, ScanState::Searching { offset: 3 }).unwrap_err().kind(), ErrorKind::InvalidArgument);
}
