use kvlog::{encode, process_record, RecordError};

#[test]
fn encode_writes_header_then_payload() {
    let frame = encode(b"a", b"1");
    assert_eq!(frame, vec![35, 72, 225, 108, 1, 0, 0, 0, 1, 0, 0, 0, b'a', b'1']);
}

#[test]
fn encode_checksum_is_crc32_ieee() {
    let frame = encode(b"1234", b"56789");
    assert_eq!(&frame[0..4], &[0x26, 0x39, 0xf4, 0xcb]);
    assert_eq!(&frame[4..8], &[4, 0, 0, 0]);
    assert_eq!(&frame[8..12], &[5, 0, 0, 0]);
    assert_eq!(&frame[12..], b"123456789");
}

#[test]
fn encode_empty_key_and_value() {
    assert_eq!(encode(b"", b""), vec![0u8; 12]);
}

#[test]
fn round_trip_all_byte_values() {
    let all: Vec<u8> = (0..=255u8).collect();
    let cases: Vec<(Vec<u8>, Vec<u8>)> = vec![
        (b"key".to_vec(), b"value".to_vec()),
        (b"key".to_vec(), Vec::new()),
        (Vec::new(), b"value".to_vec()),
        (Vec::new(), Vec::new()),
        (all.clone(), all.clone()),
        (all.clone(), b"x".to_vec()),
    ];
    for (k, v) in cases {
        let frame = encode(&k, &v);
        let (kv, n) = process_record(&frame, 0).unwrap();
        assert_eq!(kv.key, k);
        assert_eq!(kv.value, v);
        assert_eq!(n, frame.len());
        assert_eq!(n, 12 + k.len() + v.len());
    }
}

#[test]
fn round_trip_with_bytes_after() {
    let mut log = encode(b"first", b"1");
    let second_at = log.len();
    log.extend(encode(b"second", b"22"));
    let (kv, n) = process_record(&log, 0).unwrap();
    assert_eq!((kv.key.as_slice(), kv.value.as_slice(), n), (&b"first"[..], &b"1"[..], 18));
    let (kv, n) = process_record(&log, second_at).unwrap();
    assert_eq!((kv.key.as_slice(), kv.value.as_slice(), n), (&b"second"[..], &b"22"[..], 20));
    assert_eq!(process_record(&log, log.len()).unwrap_err(), RecordError::EndOfLog);
}

#[test]
fn decode_empty_is_end_of_log() {
    assert_eq!(process_record(&[], 0).unwrap_err(), RecordError::EndOfLog);
}

#[test]
fn decode_partial_header_is_truncated() {
    let frame = encode(b"k", b"v");
    for cut in 1..12 {
        assert_eq!(process_record(&frame[..cut], 0).unwrap_err(), RecordError::Truncated);
    }
}

#[test]
fn decode_partial_payload_is_truncated() {
    let frame = encode(b"key", b"value");
    for cut in 12..frame.len() {
        assert_eq!(process_record(&frame[..cut], 0).unwrap_err(), RecordError::Truncated);
    }
}

#[test]
fn decode_flipped_payload_bit_is_corrupt() {
    let frame = encode(b"key", b"value");
    for i in 12..frame.len() {
        for bit in 0..8 {
            let mut bad = frame.clone();
            bad[i] ^= 1 << bit;
            assert_eq!(process_record(&bad, 0).unwrap_err(), RecordError::Corrupt);
        }
    }
}

#[test]
fn decode_flipped_checksum_bit_is_corrupt() {
    let mut frame = encode(b"key", b"value");
    frame[2] ^= 0x10;
    assert_eq!(process_record(&frame, 0).unwrap_err(), RecordError::Corrupt);
}
