use tandem::hex::{from_hex, to_hex, HexError};
use tandem::wire::{
    canonical_kind_name, decode_batch_request, decode_batch_response, encode_batch_request,
    encode_batch_response, kind_from_name, kind_name, BatchItem, BatchOutcome, RepoCapability,
};

const REQUEST_MAGIC: &[u8; 4] = b"TBQ1";
const RESPONSE_MAGIC: &[u8; 4] = b"TBS1";

/// A frame that claims a million records in twelve bytes is rejected on
/// the count, before anything is reserved for the records it promises.
#[test]
fn a_lying_record_count_is_rejected_without_allocating() {
    let mut frame = REQUEST_MAGIC.to_vec();
    frame.extend_from_slice(&u32::MAX.to_le_bytes());
    frame.extend_from_slice(&[0u8; 4]);
    let error = decode_batch_request(&frame).expect_err("must reject");
    assert!(error.message().contains("too many"), "unexpected error: {}", error.message());

    let mut smaller = REQUEST_MAGIC.to_vec();
    smaller.extend_from_slice(&1000u32.to_le_bytes());
    smaller.extend_from_slice(&[0u8; 8]);
    let error = decode_batch_request(&smaller).expect_err("must reject");
    assert!(error.message().contains("holds only"), "unexpected error: {}", error.message());
}

/// A blob length longer than the frame is a truncation error, not a
/// four-gigabyte reservation.
#[test]
fn a_lying_blob_length_is_rejected() {
    let mut frame = REQUEST_MAGIC.to_vec();
    frame.extend_from_slice(&1u32.to_le_bytes());
    frame.extend_from_slice(&0u16.to_le_bytes());
    frame.extend_from_slice(&u32::MAX.to_le_bytes());
    let error = decode_batch_request(&frame).expect_err("must reject");
    assert!(error.message().contains("truncated"), "unexpected error: {}", error.message());
}

#[test]
fn object_kind_names_round_trip() {
    for kind in 0..5u16 {
        let name = kind_name(kind).expect("known kind");
        assert_eq!(kind_from_name(name), Some(kind));
    }
    assert_eq!(kind_name(9), None);
    assert_eq!(kind_from_name("banana"), None);
    assert_eq!(canonical_kind_name("file"), Some("file"));
    assert_eq!(canonical_kind_name("banana"), None);
}

#[test]
fn capability_names_round_trip() {
    for capability in
        [RepoCapability::WatchHeads, RepoCapability::HeadsSnapshot, RepoCapability::CopyTracking]
    {
        assert_eq!(RepoCapability::from_name(capability.as_str()), Some(capability));
    }
    assert_eq!(RepoCapability::from_name("watchheads"), None);
}

fn items() -> Vec<BatchItem> {
    vec![
        BatchItem { kind: 2, data: b"abc".to_vec() },
        BatchItem { kind: 0, data: Vec::new() },
        BatchItem { kind: 500, data: vec![0, 255] },
    ]
}

#[test]
fn a_batch_request_round_trips() {
    let encoded = encode_batch_request(&items());
    assert_eq!(&encoded[..4], REQUEST_MAGIC);
    assert_eq!(&encoded[4..8], &3u32.to_le_bytes());
    assert_eq!(&encoded[8..10], &2u16.to_le_bytes());
    assert_eq!(&encoded[10..14], &3u32.to_le_bytes());
    assert_eq!(&encoded[14..17], b"abc");
    assert_eq!(decode_batch_request(&encoded).unwrap(), items());
    assert_eq!(decode_batch_request(&encode_batch_request(&[])).unwrap(), vec![]);
}

#[test]
fn a_batch_response_round_trips() {
    let outcomes = vec![
        BatchOutcome::Written { id: vec![1, 2], normalized: b"xyz".to_vec() },
        BatchOutcome::Failed { message: "no room \u{20ac}".to_string() },
        BatchOutcome::Written { id: vec![], normalized: vec![] },
    ];
    let encoded = encode_batch_response(&outcomes);
    assert_eq!(&encoded[..4], RESPONSE_MAGIC);
    assert_eq!(decode_batch_response(&encoded).unwrap(), outcomes);
}

#[test]
fn frames_cut_short_are_errors() {
    let encoded = encode_batch_request(&items());
    for end in 0..encoded.len() {
        assert!(decode_batch_request(&encoded[..end]).is_err(), "cut at {end}");
    }
    let mut longer = encoded.clone();
    longer.push(0);
    assert!(decode_batch_request(&longer).is_err());
    assert!(decode_batch_response(&encoded).is_err());
}

#[test]
fn a_message_that_is_not_text_is_an_error() {
    let outcomes = vec![BatchOutcome::Failed { message: "ab".to_string() }];
    let mut encoded = encode_batch_response(&outcomes);
    let last = encoded.len() - 1;
    encoded[last] = 0xff;
    assert!(decode_batch_response(&encoded).is_err());
}

#[test]
fn hex_goes_both_ways() {
    assert_eq!(to_hex(&[0x00, 0x9f, 0xff]), "009fff");
    assert_eq!(from_hex("009FfF"), Ok(vec![0x00, 0x9f, 0xff]));
    assert_eq!(from_hex(""), Ok(vec![]));
    assert_eq!(from_hex("abc"), Err(HexError::OddLength));
    assert_eq!(from_hex("0g"), Err(HexError::BadDigit));
    assert_eq!(from_hex("\u{20ac}1"), Err(HexError::BadDigit));
}
