use utf8::{decode, DecodeError, Incomplete, REPLACEMENT_CHARACTER};

#[test]
fn ascii_only_is_ok() {
    assert_eq!(decode(b"hello").unwrap(), "hello");
}

#[test]
fn empty_input_is_ok() {
    assert_eq!(decode(b"").unwrap(), "");
}

#[test]
fn multibyte_input_is_ok() {
    assert_eq!(decode("a\u{E9}\u{4E16}\u{1F600}".as_bytes()).unwrap(), "a\u{E9}\u{4E16}\u{1F600}");
}

#[test]
fn invalid_byte_after_prefix() {
    match decode(b"hello\xC0world") {
        Err(DecodeError::Invalid {
            valid_prefix,
            invalid_sequence,
            remaining_input,
        }) => {
            assert_eq!(valid_prefix, "hello");
            assert_eq!(invalid_sequence, &[0xC0]);
            assert_eq!(remaining_input, b"world");
        }
        _ => unreachable!(),
    }
}

#[test]
fn lone_continuation_byte() {
    match decode(b"\x80abc") {
        Err(DecodeError::Invalid {
            valid_prefix,
            invalid_sequence,
            remaining_input,
        }) => {
            assert_eq!(valid_prefix, "");
            assert_eq!(invalid_sequence, &[0x80]);
            assert_eq!(remaining_input, b"abc");
        }
        _ => unreachable!(),
    }
}

#[test]
fn overlong_encoding_is_invalid() {
    // 0xC0 0x80 would be an overlong encoding of NUL.
    match decode(b"\xC0\x80") {
        Err(DecodeError::Invalid {
            valid_prefix,
            invalid_sequence,
            remaining_input,
        }) => {
            assert_eq!(valid_prefix, "");
            assert_eq!(invalid_sequence, &[0xC0]);
            assert_eq!(remaining_input, b"\x80");
        }
        _ => unreachable!(),
    }
}

#[test]
fn surrogate_encoding_is_invalid() {
    // 0xED 0xA0 0x80 would encode the surrogate U+D800.
    match decode(b"\xED\xA0\x80") {
        Err(DecodeError::Invalid {
            valid_prefix,
            invalid_sequence,
            remaining_input,
        }) => {
            assert_eq!(valid_prefix, "");
            assert_eq!(invalid_sequence, &[0xED]);
            assert_eq!(remaining_input, b"\xA0\x80");
        }
        _ => unreachable!(),
    }
}

#[test]
fn codepoint_past_maximum_is_invalid() {
    // 0xF4 0x90 ... would encode a codepoint past U+10FFFF.
    match decode(b"\xF4\x90\x80\x80") {
        Err(DecodeError::Invalid {
            invalid_sequence, ..
        }) => {
            assert_eq!(invalid_sequence, &[0xF4]);
        }
        _ => unreachable!(),
    }
}

#[test]
fn truncated_two_byte_sequence() {
    match decode(b"\xC3") {
        Err(DecodeError::Incomplete {
            valid_prefix,
            incomplete_suffix,
        }) => {
            assert_eq!(valid_prefix, "");
            assert_eq!(incomplete_suffix.buffer_len, 1);
            assert_eq!(incomplete_suffix.buffer[0], 0xC3);
        }
        _ => unreachable!(),
    }
}

#[test]
fn truncated_three_byte_sequence() {
    match decode(b"ab\xE2\x82") {
        Err(DecodeError::Incomplete {
            valid_prefix,
            incomplete_suffix,
        }) => {
            assert_eq!(valid_prefix, "ab");
            assert_eq!(incomplete_suffix.buffer_len, 2);
            assert_eq!(&incomplete_suffix.buffer[..2], &[0xE2, 0x82]);
        }
        _ => unreachable!(),
    }
}

#[test]
fn continuation_completes_two_byte_codepoint() {
    let mut incomplete = match decode(b"\xC3") {
        Err(DecodeError::Incomplete {
            incomplete_suffix, ..
        }) => incomplete_suffix,
        _ => unreachable!(),
    };
    match incomplete.try_complete(&[0xA9]) {
        Some((Ok(text), rest)) => {
            assert_eq!(text, "\u{E9}");
            assert_eq!(rest, b"");
        }
        _ => unreachable!(),
    }
    assert!(incomplete.is_empty());
}

#[test]
fn continuation_with_extra_input_left_over() {
    let mut incomplete = Incomplete::new(&[0xE2]);
    match incomplete.try_complete(&[0x82, 0xAC, b'x', b'y']) {
        Some((Ok(text), rest)) => {
            // The euro sign plus one more ASCII byte fit in the buffer.
            assert_eq!(text, "\u{20AC}x");
            assert_eq!(rest, b"y");
        }
        _ => unreachable!(),
    }
}

#[test]
fn continuation_rejects_impossible_sequence() {
    let mut incomplete = Incomplete::new(&[0xE0, 0xA0]);
    match incomplete.try_complete(&[b'A']) {
        Some((Err(bad), rest)) => {
            assert_eq!(bad, &[0xE0, 0xA0]);
            assert_eq!(rest, b"A");
        }
        _ => unreachable!(),
    }
}

#[test]
fn continuation_still_incomplete_without_input() {
    let mut incomplete = Incomplete::new(&[0xF0, 0x9F]);
    assert!(incomplete.try_complete(&[]).is_none());
    assert_eq!(incomplete.buffer_len, 2);
}

#[test]
fn continuation_grows_one_byte_at_a_time() {
    let mut incomplete = Incomplete::new(&[0xF0]);
    assert!(incomplete.try_complete(&[0x9F]).is_none());
    assert!(incomplete.try_complete(&[0x98]).is_none());
    match incomplete.try_complete(&[0x80]) {
        Some((Ok(text), rest)) => {
            assert_eq!(text, "\u{1F600}");
            assert_eq!(rest, b"");
        }
        _ => unreachable!(),
    }
}

#[test]
fn replacement_character_constant() {
    assert_eq!(REPLACEMENT_CHARACTER, "\u{FFFD}");
}

#[test]
fn agreement_with_std_validation() {
    let samples: &[&[u8]] = &[
        b"",
        b"plain ascii",
        b"hello\xC0world",
        b"\x80",
        b"\xC3",
        b"\xC3\xA9",
        b"\xE0\x80",
        b"\xE0\xA0",
        b"\xED\xA0\x80",
        b"\xF4\x8F\xBF\xBF",
        b"\xF4\x90\x80\x80",
        b"ab\xE2\x82\xAC tail \xF0\x9F",
        b"\xFF\xFE",
    ];
    for &sample in samples {
        match (decode(sample), core::str::from_utf8(sample)) {
            (Ok(text), Ok(std_text)) => assert_eq!(text, std_text),
            (Err(DecodeError::Invalid { valid_prefix, invalid_sequence, .. }), Err(e)) => {
                assert_eq!(valid_prefix.len(), e.valid_up_to());
                assert_eq!(invalid_sequence.len(), e.error_len().unwrap());
            }
            (Err(DecodeError::Incomplete { valid_prefix, incomplete_suffix }), Err(e)) => {
                assert_eq!(valid_prefix.len(), e.valid_up_to());
                assert!(e.error_len().is_none());
                let suffix_len = incomplete_suffix.buffer_len as usize;
                assert!((1..=3).contains(&suffix_len));
                assert_eq!(valid_prefix.len() + suffix_len, sample.len());
            }
            _ => unreachable!(),
        }
    }
}

#[test]
fn description_names_the_offending_bytes() {
    match decode(b"hello\xC0world") {
        Err(e) => {
            let d = e.description();
            assert!(d.contains("5 valid bytes"));
            assert!(d.contains("5 more unprocessed"));
            assert!(d.contains("c0"));
        }
        _ => unreachable!(),
    }
    match decode(b"ab\xC3") {
        Err(e) => {
            let d = e.description();
            assert!(d.contains("incomplete"));
            assert!(d.contains("after 2 bytes"));
        }
        _ => unreachable!(),
    }
}

#[test]
fn error_parts_reassemble_input() {
    let sample: &[u8] = b"ab\xE2\x82\xAC\xC0\x80xy\xF0\x9F";
    let mut reassembled: Vec<u8> = Vec::new();
    let mut remaining = sample;
    loop {
        match decode(remaining) {
            Ok(text) => {
                reassembled.extend_from_slice(text.as_bytes());
                break;
            }
            Err(DecodeError::Invalid {
                valid_prefix,
                invalid_sequence,
                remaining_input,
            }) => {
                reassembled.extend_from_slice(valid_prefix.as_bytes());
                reassembled.extend_from_slice(invalid_sequence);
                remaining = remaining_input;
            }
            Err(DecodeError::Incomplete {
                valid_prefix,
                incomplete_suffix,
            }) => {
                reassembled.extend_from_slice(valid_prefix.as_bytes());
                reassembled
                    .extend_from_slice(&incomplete_suffix.buffer[..incomplete_suffix.buffer_len as usize]);
                break;
            }
        }
    }
    assert_eq!(reassembled, sample);
}
