use utf8_validate::{
    is_code_point_valid, is_overlong_sequence, is_trail, sequence_length, validate_next,
    ByteSource, SeqLen, UtfError,
};

#[test]
fn empty_input_reports_not_enough_room() {
    let bytes: [u8; 0] = [];
    let mut it = ByteSource::new(&bytes);
    assert_eq!(validate_next(&mut it), Err(UtfError::NotEnoughRoom));
}

#[test]
fn streaming_ascii_two_calls_then_exhaustion() {
    let bytes = [0x41u8, 0x21];
    let mut it = ByteSource::new(&bytes);
    assert_eq!(validate_next(&mut it), Ok(0x41));
    assert_eq!(validate_next(&mut it), Ok(0x21));
    assert_eq!(validate_next(&mut it), Err(UtfError::NotEnoughRoom));
}

#[test]
fn stray_continuation_byte_is_invalid_lead() {
    let bytes = [0x80u8];
    let mut it = ByteSource::new(&bytes);
    assert_eq!(validate_next(&mut it), Err(UtfError::InvalidLead(0x80)));
    // Nothing was consumed: the same byte is classified again.
    assert_eq!(validate_next(&mut it), Err(UtfError::InvalidLead(0x80)));
}

#[test]
fn invalid_lead_patterns_rejected() {
    for lead in 0x80u8..0xC0 {
        let bytes = [lead];
        let mut it = ByteSource::new(&bytes);
        assert_eq!(validate_next(&mut it), Err(UtfError::InvalidLead(lead)));
    }
    for lead in 0xF8u8..=0xFF {
        let bytes = [lead];
        let mut it = ByteSource::new(&bytes);
        assert_eq!(validate_next(&mut it), Err(UtfError::InvalidLead(lead)));
    }
}

#[test]
fn overlong_two_byte_nul_rejected() {
    let bytes = [0xC0u8, 0x80];
    let mut it = ByteSource::new(&bytes);
    assert_eq!(validate_next(&mut it), Err(UtfError::OverlongSequence(0)));
}

#[test]
fn overlong_longer_sequences_rejected() {
    let three = [0xE0u8, 0x80, 0x80];
    let mut it = ByteSource::new(&three);
    assert_eq!(validate_next(&mut it), Err(UtfError::OverlongSequence(0)));

    let four = [0xF0u8, 0x80, 0x80, 0x80];
    let mut it = ByteSource::new(&four);
    assert_eq!(validate_next(&mut it), Err(UtfError::OverlongSequence(0)));

    // 0xC1 0xBF would decode to 0x7F, which needs only one byte.
    let ascii_overlong = [0xC1u8, 0xBF];
    let mut it = ByteSource::new(&ascii_overlong);
    assert_eq!(validate_next(&mut it), Err(UtfError::OverlongSequence(0x7F)));
}

#[test]
fn lone_lead_reports_not_enough_room() {
    let bytes = [0xE2u8];
    let mut it = ByteSource::new(&bytes);
    assert_eq!(validate_next(&mut it), Err(UtfError::NotEnoughRoom));
}

#[test]
fn non_continuation_after_lead_reports_incomplete() {
    let bytes = [0xE2u8, 0x41];
    let mut it = ByteSource::new(&bytes);
    assert_eq!(validate_next(&mut it), Err(UtfError::IncompleteSequence(0xE2)));
}

#[test]
fn incomplete_sequence_carries_partial_value() {
    // Failure at the second continuation byte: the payload is the value
    // assembled from the lead and the first continuation byte.
    let bytes = [0xE2u8, 0x82, 0x41];
    let mut it = ByteSource::new(&bytes);
    let partial = ((0xE2u32 & 0x0F) << 12) | ((0x82u32 & 0x3F) << 6);
    assert_eq!(validate_next(&mut it), Err(UtfError::IncompleteSequence(partial)));
}

#[test]
fn failed_sequence_leaves_cursor_after_bad_byte() {
    let bytes = [0xE2u8, 0x41, 0x42];
    let mut it = ByteSource::new(&bytes);
    assert_eq!(validate_next(&mut it), Err(UtfError::IncompleteSequence(0xE2)));
    // 0x41 was consumed as the failing byte; 0x42 is next.
    assert_eq!(validate_next(&mut it), Ok(0x42));
}

#[test]
fn every_surrogate_three_byte_sequence_rejected() {
    for cp in 0xD800u32..=0xDFFF {
        let bytes = [
            0xE0 | (cp >> 12) as u8,
            0x80 | ((cp >> 6) & 0x3F) as u8,
            0x80 | (cp & 0x3F) as u8,
        ];
        let mut it = ByteSource::new(&bytes);
        assert_eq!(validate_next(&mut it), Err(UtfError::InvalidCodePoint(cp)));
    }
}

#[test]
fn above_max_rejected() {
    let bytes = [0xF4u8, 0x90, 0x80, 0x80];
    let mut it = ByteSource::new(&bytes);
    assert_eq!(validate_next(&mut it), Err(UtfError::InvalidCodePoint(0x110000)));
}

#[test]
fn classification_is_idempotent() {
    for lead in 0u16..=0xFF {
        let lead = lead as u8;
        assert_eq!(sequence_length(lead), sequence_length(lead));
    }
}

#[test]
fn classifier_assigns_expected_lengths() {
    assert_eq!(sequence_length(0x41), Ok(SeqLen::One));
    assert_eq!(sequence_length(0x7F), Ok(SeqLen::One));
    assert_eq!(sequence_length(0xC3), Ok(SeqLen::Two));
    assert_eq!(sequence_length(0xE2), Ok(SeqLen::Three));
    assert_eq!(sequence_length(0xF0), Ok(SeqLen::Four));
    assert_eq!(sequence_length(0x80), Err(UtfError::InvalidLead(0x80)));
    assert_eq!(sequence_length(0xF8), Err(UtfError::InvalidLead(0xF8)));
    assert_eq!(sequence_length(0xFF), Err(UtfError::InvalidLead(0xFF)));
}

#[test]
fn round_trip_all_scalar_values() {
    for u in 0u32..=0x10FFFF {
        if let Some(ch) = char::from_u32(u) {
            let mut buf = [0u8; 4];
            let encoded = ch.encode_utf8(&mut buf);
            let mut it = ByteSource::new(encoded.as_bytes());
            assert_eq!(validate_next(&mut it), Ok(u));
            assert_eq!(validate_next(&mut it), Err(UtfError::NotEnoughRoom));
        }
    }
}

#[test]
fn exact_multi_byte_values() {
    let two = [0xC3u8, 0xA9];
    let mut it = ByteSource::new(&two);
    assert_eq!(validate_next(&mut it), Ok(0xE9));

    let three = [0xE2u8, 0x82, 0xAC];
    let mut it = ByteSource::new(&three);
    assert_eq!(validate_next(&mut it), Ok(0x20AC));

    let four = [0xF0u8, 0x9D, 0x84, 0x9E];
    let mut it = ByteSource::new(&four);
    assert_eq!(validate_next(&mut it), Ok(0x1D11E));
}

#[test]
fn boundary_values_accepted() {
    // Smallest and largest value of each sequence length, and the scalar
    // values on both sides of the surrogate gap.
    let cases: [(&[u8], u32); 9] = [
        (&[0x00], 0x00),
        (&[0x7F], 0x7F),
        (&[0xC2, 0x80], 0x80),
        (&[0xDF, 0xBF], 0x7FF),
        (&[0xE0, 0xA0, 0x80], 0x800),
        (&[0xED, 0x9F, 0xBF], 0xD7FF),
        (&[0xEE, 0x80, 0x80], 0xE000),
        (&[0xF0, 0x90, 0x80, 0x80], 0x10000),
        (&[0xF4, 0x8F, 0xBF, 0xBF], 0x10FFFF),
    ];
    for (bytes, expected) in cases {
        let mut it = ByteSource::new(bytes);
        assert_eq!(validate_next(&mut it), Ok(expected));
    }
}

#[test]
fn trail_predicate() {
    assert!(is_trail(0x80));
    assert!(is_trail(0xBF));
    assert!(!is_trail(0x7F));
    assert!(!is_trail(0xC0));
}

#[test]
fn code_point_validity_predicate() {
    assert!(is_code_point_valid(0x41));
    assert!(is_code_point_valid(0xD7FF));
    assert!(!is_code_point_valid(0xD800));
    assert!(!is_code_point_valid(0xDFFF));
    assert!(is_code_point_valid(0xE000));
    assert!(is_code_point_valid(0x10FFFF));
    assert!(!is_code_point_valid(0x110000));
}

#[test]
fn overlong_predicate() {
    assert!(is_overlong_sequence(0x41, SeqLen::Two));
    assert!(!is_overlong_sequence(0x41, SeqLen::One));
    assert!(is_overlong_sequence(0xE9, SeqLen::Three));
    assert!(!is_overlong_sequence(0xE9, SeqLen::Two));
    assert!(is_overlong_sequence(0x20AC, SeqLen::Four));
    assert!(!is_overlong_sequence(0x20AC, SeqLen::Three));
    assert!(!is_overlong_sequence(0x1D11E, SeqLen::Four));
}
