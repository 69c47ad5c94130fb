use std::io::BufReader;
use utf8::lossy::{LossyDecoder, StringSink};
use utf8::read::{BufReadDecoder, BufReadDecoderError};

fn lossy_chunks(chunks: &[&[u8]]) -> String {
    let mut decoder = LossyDecoder::new(StringSink::new());
    for chunk in chunks {
        decoder.feed(chunk);
    }
    decoder.finish().into_string()
}

#[test]
fn push_decoder_joins_codepoint_across_chunks() {
    let out = lossy_chunks(&[b"he", &[0xC3], &[0xA9, b'l', b'l', b'o']]);
    assert_eq!(out, "he\u{E9}llo");
    assert!(!out.contains('\u{FFFD}'));
}

#[test]
fn push_decoder_flushes_trailing_incomplete() {
    let out = lossy_chunks(&[b"abc\xE2"]);
    assert_eq!(out, "abc\u{FFFD}");
}

#[test]
fn push_decoder_replaces_invalid_sequence() {
    let out = lossy_chunks(&[b"a\xC0\x80b"]);
    assert_eq!(out, String::from_utf8_lossy(b"a\xC0\x80b"));
}

#[test]
fn push_decoder_empty_stream() {
    assert_eq!(lossy_chunks(&[]), "");
    assert_eq!(lossy_chunks(&[b"", b""]), "");
}

#[test]
fn push_decoder_matches_whole_buffer_lossy_for_any_split() {
    let data: &[u8] = b"a\xC3\xA9\xE2\x82\xAC\xF0\x9F\x98\x80\x80\xC0ok\xED\xA0\x80tail\xF0\x9F";
    let expected = String::from_utf8_lossy(data);
    for split1 in 0..=data.len() {
        for split2 in split1..=data.len() {
            let out = lossy_chunks(&[&data[..split1], &data[split1..split2], &data[split2..]]);
            assert_eq!(out, expected, "split at {split1} and {split2}");
        }
    }
}

#[test]
fn bufread_lossy_matches_whole_buffer_lossy() {
    let data: &[u8] = b"start \xC3\xA9 mid \xE2\x82 bad \xFF end \xF0\x9F";
    let expected = String::from_utf8_lossy(data);
    for capacity in 1..=6 {
        let reader = BufReader::with_capacity(capacity, data);
        let out = BufReadDecoder::read_to_string_lossy(reader).unwrap();
        assert_eq!(out, expected, "capacity {capacity}");
    }
}

#[test]
fn bufread_strict_reports_invalid_sequences() {
    let data: &[u8] = b"hello\xC0world";
    let reader = BufReader::with_capacity(3, data);
    let mut decoder = BufReadDecoder::new(reader);
    let mut text = String::new();
    let mut invalid: Vec<Vec<u8>> = Vec::new();
    loop {
        match decoder.next_strict() {
            None => break,
            Some(Ok(segment)) => {
                assert!(!segment.is_empty());
                text.push_str(&segment);
            }
            Some(Err(BufReadDecoderError::InvalidByteSequence(b))) => invalid.push(b),
            Some(Err(BufReadDecoderError::Io(e))) => panic!("unexpected io error: {e}"),
        }
    }
    assert_eq!(text, "helloworld");
    assert_eq!(invalid, vec![vec![0xC0]]);
}

#[test]
fn bufread_strict_reports_unterminated_sequence_at_end() {
    let data: &[u8] = b"ok\xE2\x82";
    let reader = BufReader::with_capacity(2, data);
    let mut decoder = BufReadDecoder::new(reader);
    let mut text = String::new();
    let mut invalid: Vec<Vec<u8>> = Vec::new();
    loop {
        match decoder.next_strict() {
            None => break,
            Some(Ok(segment)) => text.push_str(&segment),
            Some(Err(BufReadDecoderError::InvalidByteSequence(b))) => invalid.push(b),
            Some(Err(BufReadDecoderError::Io(e))) => panic!("unexpected io error: {e}"),
        }
    }
    assert_eq!(text, "ok");
    assert_eq!(invalid, vec![vec![0xE2, 0x82]]);
}

#[test]
fn bufread_strict_decodes_codepoint_split_by_buffer() {
    let data: &[u8] = "a\u{20AC}b".as_bytes();
    for capacity in 1..=5 {
        let reader = BufReader::with_capacity(capacity, data);
        let mut decoder = BufReadDecoder::new(reader);
        let mut text = String::new();
        loop {
            match decoder.next_strict() {
                None => break,
                Some(Ok(segment)) => text.push_str(&segment),
                Some(Err(_)) => panic!("unexpected decode error"),
            }
        }
        assert_eq!(text, "a\u{20AC}b", "capacity {capacity}");
    }
}

struct FailingSource;

impl std::io::Read for FailingSource {
    fn read(&mut self, _buf: &mut [u8]) -> std::io::Result<usize> {
        Err(std::io::Error::new(std::io::ErrorKind::Other, "source broke"))
    }
}

impl std::io::BufRead for FailingSource {
    fn fill_buf(&mut self) -> std::io::Result<&[u8]> {
        Err(std::io::Error::new(std::io::ErrorKind::Other, "source broke"))
    }

    fn consume(&mut self, _amt: usize) {}
}

#[test]
fn bufread_strict_surfaces_io_error() {
    let mut decoder = BufReadDecoder::new(FailingSource);
    match decoder.next_strict() {
        Some(Err(BufReadDecoderError::Io(e))) => {
            assert_eq!(e.kind(), std::io::ErrorKind::Other);
        }
        _ => unreachable!(),
    }
}

#[test]
fn read_to_string_lossy_propagates_io_error() {
    assert!(BufReadDecoder::read_to_string_lossy(FailingSource).is_err());
}

#[test]
fn bufread_next_lossy_substitutes_replacement() {
    let data: &[u8] = b"a\xFFb";
    let reader = BufReader::with_capacity(2, data);
    let mut decoder = BufReadDecoder::new(reader);
    let mut text = String::new();
    loop {
        match decoder.next_lossy() {
            None => break,
            Some(Ok(segment)) => {
                assert!(!segment.is_empty());
                text.push_str(&segment);
            }
            Some(Err(e)) => panic!("unexpected io error: {e}"),
        }
    }
    assert_eq!(text, String::from_utf8_lossy(data));
}
