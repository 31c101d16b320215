//! Single rounds of decoding on a buffer, and the decoder's answers to what a read came to.

use async_utf8_decoder::{decode_next, DecodeError, MalformedSequence, Next, Phase, Utf8Decoder};
use std::io;

/// Puts `bytes` into the free part of the buffer and reports a read of that many bytes.
fn deliver(decoder: &mut Utf8Decoder<()>, bytes: &[u8]) -> Next {
    let (_, unfilled) = decoder.read_parts();
    assert!(bytes.len() <= unfilled.len());
    unfilled[..bytes.len()].copy_from_slice(bytes);
    decoder.on_read(Ok(bytes.len()))
}

fn malformed(next: Next) -> MalformedSequence {
    match next {
        Next::Failed(DecodeError::Utf8Error(malformed)) => malformed,
        other => panic!("expected a malformed sequence, got {:?}", other),
    }
}

#[test]
fn new_decoder_is_idle_with_default_capacity() {
    let decoder = Utf8Decoder::new(7u32);
    assert_eq!(decoder.capacity(), 8192);
    assert_eq!(decoder.phase(), Phase::Idle);
    assert!(!decoder.is_terminated());
    assert!(decoder.pending().is_empty());
    assert_eq!(*decoder.get_ref(), 7);
}

#[test]
fn with_capacity_takes_the_minimum() {
    let mut decoder = Utf8Decoder::with_capacity(4, ());
    assert_eq!(decoder.capacity(), 4);
    assert_eq!(decoder.phase(), Phase::Idle);
    let (_, unfilled) = decoder.read_parts();
    assert_eq!(unfilled.len(), 4);
}

#[test]
fn buffer_starts_out_zeroed() {
    let mut decoder = Utf8Decoder::with_capacity(16, ());
    let (_, unfilled) = decoder.read_parts();
    assert_eq!(unfilled.to_vec(), vec![0u8; 16]);
}

#[test]
fn source_can_be_reached_and_recovered() {
    let mut decoder = Utf8Decoder::with_capacity(8, vec![1u8, 2]);
    assert_eq!(decoder.get_ref(), &vec![1u8, 2]);
    decoder.get_mut().push(3);
    assert_eq!(decoder.get_ref(), &vec![1u8, 2, 3]);
    let (source, _) = decoder.read_parts();
    source.push(4);
    assert_eq!(decoder.into_inner(), vec![1u8, 2, 3, 4]);
}

#[test]
fn decode_next_takes_all_of_valid_bytes() {
    let mut buf = [0x24, 0xC2, 0xA2, 0xE0, 0xA4, 0xB9, 0xF0, 0x90, 0x8D, 0x88, 0xAA, 0xBB];
    let (text, remains) = decode_next(&mut buf, 0, 10).unwrap();
    assert_eq!(text, "\u{0024}\u{00A2}\u{0939}\u{10348}");
    assert_eq!(remains, 0);
    assert_eq!(buf, [0x24, 0xC2, 0xA2, 0xE0, 0xA4, 0xB9, 0xF0, 0x90, 0x8D, 0x88, 0xAA, 0xBB]);
}

#[test]
fn decode_next_moves_an_incomplete_tail_to_the_front() {
    let mut buf = [0x24, 0xC2, 0xA2, 0xF0, 0x90, 0x8D, 0x00, 0x00];
    let (text, remains) = decode_next(&mut buf, 0, 6).unwrap();
    assert_eq!(text, "\u{0024}\u{00A2}");
    assert_eq!(remains, 3);
    assert_eq!(buf, [0xF0, 0x90, 0x8D, 0xF0, 0x90, 0x8D, 0x00, 0x00]);
}

#[test]
fn decode_next_moves_a_tail_that_overlaps_its_target() {
    let mut buf = [0x41, 0xF0, 0x9F, 0x92, 0x00];
    let (text, remains) = decode_next(&mut buf, 0, 4).unwrap();
    assert_eq!(text, "A");
    assert_eq!(remains, 3);
    assert_eq!(buf, [0xF0, 0x9F, 0x92, 0x92, 0x00]);
}

#[test]
fn decode_next_completes_the_bytes_kept_before() {
    let mut buf = [0xF0, 0x9F, 0x92, 0x96, 0x21, 0xE0, 0x00, 0x00];
    let (text, remains) = decode_next(&mut buf, 3, 3).unwrap();
    assert_eq!(text, "💖!");
    assert_eq!(remains, 1);
    assert_eq!(buf, [0xE0, 0x9F, 0x92, 0x96, 0x21, 0xE0, 0x00, 0x00]);
}

#[test]
fn decode_next_keeps_a_whole_region_that_is_one_beginning() {
    let mut buf = [0xE0, 0xA4, 0x00, 0x00];
    let (text, remains) = decode_next(&mut buf, 1, 1).unwrap();
    assert_eq!(text, "");
    assert_eq!(remains, 2);
    assert_eq!(buf, [0xE0, 0xA4, 0x00, 0x00]);
}

#[test]
fn decode_next_of_nothing_is_empty_text() {
    let mut buf = [0xFF, 0xFF, 0xFF, 0xFF];
    let (text, remains) = decode_next(&mut buf, 0, 0).unwrap();
    assert_eq!(text, "");
    assert_eq!(remains, 0);
    assert_eq!(buf, [0xFF, 0xFF, 0xFF, 0xFF]);
}

#[test]
fn decode_next_looks_at_no_byte_behind_the_read() {
    let mut buf = [0x41, 0x42, 0xFF, 0xFF];
    let (text, remains) = decode_next(&mut buf, 0, 2).unwrap();
    assert_eq!(text, "AB");
    assert_eq!(remains, 0);
}

#[test]
fn decode_next_places_a_malformed_byte() {
    let mut buf = [0x41, 0x42, 0xFF, 0x43];
    match decode_next(&mut buf, 0, 4) {
        Err(DecodeError::Utf8Error(malformed)) => {
            assert_eq!(malformed, MalformedSequence { valid_up_to: 2, error_len: 1 });
        }
        other => panic!("expected a malformed sequence, got {:?}", other),
    }
    assert_eq!(buf, [0x41, 0x42, 0xFF, 0x43]);
}

#[test]
fn decode_next_rejects_what_no_byte_could_complete() {
    // an overlong beginning, a surrogate, a scalar beyond the last one, a stray continuation
    for bytes in [[0xE0u8, 0x80], [0xED, 0xA0], [0xF4, 0x90], [0xC0, 0x80], [0x80, 0x80]] {
        let mut buf = [bytes[0], bytes[1], 0, 0];
        match decode_next(&mut buf, 0, 2) {
            Err(DecodeError::Utf8Error(malformed)) => {
                assert_eq!(malformed, MalformedSequence { valid_up_to: 0, error_len: 1 });
            }
            other => panic!("expected a malformed sequence, got {:?}", other),
        }
    }
}

#[test]
fn decode_next_rejects_a_beginning_followed_by_another_character() {
    let mut buf = [0x41, 0xE2, 0x82, 0x41];
    match decode_next(&mut buf, 1, 3) {
        Err(DecodeError::Utf8Error(malformed)) => {
            assert_eq!(malformed, MalformedSequence { valid_up_to: 1, error_len: 2 });
        }
        other => panic!("expected a malformed sequence, got {:?}", other),
    }
}

#[test]
fn first_byte_malformed_fails_at_once() {
    let mut decoder = Utf8Decoder::new(());
    let failure = malformed(deliver(&mut decoder, &[0xFF]));
    assert_eq!(failure, MalformedSequence { valid_up_to: 0, error_len: 1 });
    assert_eq!(decoder.phase(), Phase::Errored);
    assert!(decoder.is_terminated());
}

#[test]
fn malformed_position_counts_the_pending_bytes() {
    let mut decoder = Utf8Decoder::new(());
    assert!(matches!(deliver(&mut decoder, &[0xE2, 0x82]), Next::ReadMore));
    assert_eq!(decoder.pending(), [0xE2, 0x82]);
    let failure = malformed(deliver(&mut decoder, &[0x41]));
    assert_eq!(failure, MalformedSequence { valid_up_to: 0, error_len: 2 });
}

#[test]
fn chunk_before_a_malformed_byte_is_not_delivered() {
    let mut decoder = Utf8Decoder::new(());
    let failure = malformed(deliver(&mut decoder, &[0x41, 0x42, 0xFF]));
    assert_eq!(failure, MalformedSequence { valid_up_to: 2, error_len: 1 });
}

#[test]
fn split_character_asks_for_more_and_then_arrives() {
    let mut decoder = Utf8Decoder::new(());
    assert!(matches!(deliver(&mut decoder, &[0xF0]), Next::ReadMore));
    assert_eq!(decoder.phase(), Phase::Partial);
    assert_eq!(decoder.pending(), [0xF0]);
    assert!(matches!(deliver(&mut decoder, &[0x9F]), Next::ReadMore));
    assert_eq!(decoder.pending(), [0xF0, 0x9F]);
    assert!(matches!(deliver(&mut decoder, &[0x92]), Next::ReadMore));
    assert_eq!(decoder.pending(), [0xF0, 0x9F, 0x92]);
    match deliver(&mut decoder, &[0x96]) {
        Next::Chunk(text) => assert_eq!(text, "💖"),
        other => panic!("expected a chunk, got {:?}", other),
    }
    assert_eq!(decoder.phase(), Phase::Idle);
    assert!(decoder.pending().is_empty());
}

#[test]
fn chunk_ends_where_a_character_is_cut() {
    let mut decoder = Utf8Decoder::new(());
    match deliver(&mut decoder, &[0x24, 0xC2, 0xA2, 0xE0, 0xA4]) {
        Next::Chunk(text) => assert_eq!(text, "\u{0024}\u{00A2}"),
        other => panic!("expected a chunk, got {:?}", other),
    }
    assert_eq!(decoder.phase(), Phase::Partial);
    assert_eq!(decoder.pending(), [0xE0, 0xA4]);
    match deliver(&mut decoder, &[0xB9, 0x24]) {
        Next::Chunk(text) => assert_eq!(text, "\u{0939}\u{0024}"),
        other => panic!("expected a chunk, got {:?}", other),
    }
    assert_eq!(decoder.phase(), Phase::Idle);
}

#[test]
fn free_part_shrinks_by_the_pending_bytes() {
    let mut decoder = Utf8Decoder::with_capacity(4, ());
    assert!(matches!(deliver(&mut decoder, &[0xF0, 0x90, 0x8D]), Next::ReadMore));
    let (_, unfilled) = decoder.read_parts();
    assert_eq!(unfilled.len(), 1);
    unfilled[0] = 0x88;
    match decoder.on_read(Ok(1)) {
        Next::Chunk(text) => assert_eq!(text, "\u{10348}"),
        other => panic!("expected a chunk, got {:?}", other),
    }
    let (_, unfilled) = decoder.read_parts();
    assert_eq!(unfilled.len(), 4);
}

#[test]
fn end_of_source_inside_a_character_is_an_error() {
    let mut decoder = Utf8Decoder::new(());
    assert!(matches!(deliver(&mut decoder, &[0xE0]), Next::ReadMore));
    match decoder.on_read(Ok(0)) {
        Next::Failed(DecodeError::IncompleteUtf8Sequence(bytes)) => assert_eq!(bytes, [0xE0]),
        other => panic!("expected an incomplete sequence, got {:?}", other),
    }
    assert_eq!(decoder.phase(), Phase::Errored);
    assert!(decoder.pending().is_empty());
}

#[test]
fn end_of_source_between_characters_is_clean() {
    let mut decoder = Utf8Decoder::new(());
    assert!(matches!(decoder.on_read(Ok(0)), Next::Finished));
    assert_eq!(decoder.phase(), Phase::Closed);

    let mut decoder = Utf8Decoder::new(());
    assert!(matches!(deliver(&mut decoder, &[0xC2, 0xA2]), Next::Chunk(_)));
    assert!(matches!(decoder.on_read(Ok(0)), Next::Finished));
    assert_eq!(decoder.phase(), Phase::Closed);
}

#[test]
fn read_failure_is_passed_through() {
    let mut decoder = Utf8Decoder::new(());
    assert!(matches!(deliver(&mut decoder, &[0xE0]), Next::ReadMore));
    let failure = io::Error::new(io::ErrorKind::ConnectionReset, "reset by peer");
    match decoder.on_read(Err(failure)) {
        Next::Failed(DecodeError::IOError(error)) => {
            assert_eq!(error.kind(), io::ErrorKind::ConnectionReset);
            assert_eq!(error.to_string(), "reset by peer");
        }
        other => panic!("expected a read failure, got {:?}", other),
    }
    assert_eq!(decoder.phase(), Phase::Errored);
}

#[test]
fn nothing_follows_an_error() {
    let mut decoder = Utf8Decoder::new(());
    malformed(deliver(&mut decoder, &[0xFF]));
    assert!(matches!(deliver(&mut decoder, &[0x41]), Next::Finished));
    assert!(matches!(decoder.on_read(Ok(0)), Next::Finished));
    let failure = io::Error::new(io::ErrorKind::Other, "late");
    assert!(matches!(decoder.on_read(Err(failure)), Next::Finished));
    assert_eq!(decoder.phase(), Phase::Errored);
}

#[test]
fn nothing_follows_the_end() {
    let mut decoder = Utf8Decoder::new(());
    assert!(matches!(decoder.on_read(Ok(0)), Next::Finished));
    assert!(matches!(deliver(&mut decoder, &[0x41]), Next::Finished));
    assert!(matches!(deliver(&mut decoder, &[0xFF]), Next::Finished));
    assert_eq!(decoder.phase(), Phase::Closed);
}

#[test]
fn errors_convert_from_their_causes() {
    let malformed = MalformedSequence { valid_up_to: 3, error_len: 1 };
    match DecodeError::from(malformed) {
        DecodeError::Utf8Error(carried) => assert_eq!(carried, malformed),
        other => panic!("expected a malformed sequence, got {:?}", other),
    }
    let failure = io::Error::new(io::ErrorKind::TimedOut, "slow");
    match DecodeError::from(failure) {
        DecodeError::IOError(carried) => assert_eq!(carried.kind(), io::ErrorKind::TimedOut),
        other => panic!("expected a read failure, got {:?}", other),
    }
}
