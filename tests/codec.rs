use xs_store::cas::{is_base64_digest, parse_hash};
use xs_store::store::{frames_of_entries, last_id_of};
use xs_store::ids::next_id;
use xs_store::key::{id_to_key, key_to_id};
use xs_store::record::{decode_record, encode_record, Frame};
use xs_store::error::StoreError;
use xs_store::store::line_payload;

#[test]
fn key_is_big_endian() {
    let k = id_to_key(0x0102);
    let mut want = vec![0u8; 16];
    want[14] = 1;
    want[15] = 2;
    assert_eq!(k, want);
    assert_eq!(id_to_key(u128::MAX), vec![255u8; 16]);
    assert_eq!(key_to_id(&want), 0x0102);
}

#[test]
fn key_order_matches_id_order() {
    let ids = [0u128, 1, 255, 256, 1 << 64, (1 << 64) + 1, u128::MAX - 1, u128::MAX];
    for w in ids.windows(2) {
        assert!(id_to_key(w[0]) < id_to_key(w[1]));
    }
}

#[test]
fn key_round_trip() {
    for id in [0u128, 42, 0xdead_beef_0000_1111_2222_3333_4444_5555, u128::MAX] {
        assert_eq!(key_to_id(&id_to_key(id)), id);
    }
}

#[test]
fn record_round_trip() {
    let f = Frame { id: 0x0123_4567_89ab_cdef_0011_2233_4455_6677, hash: "sha256-AAAA".to_string() };
    let bytes = encode_record(&f);
    assert_eq!(bytes.len(), 16 + 11);
    assert_eq!(&bytes[16..], b"sha256-AAAA");
    assert_eq!(decode_record(&bytes), Ok(f));
}

#[test]
fn record_decode_errors() {
    assert_eq!(decode_record(&[1, 2, 3]), Err(StoreError::Decode));
    let mut bad = vec![0u8; 16];
    bad.push(0xff);
    assert_eq!(decode_record(&bad), Err(StoreError::Decode));
    let empty_hash = vec![0u8; 16];
    assert_eq!(decode_record(&empty_hash), Ok(Frame { id: 0, hash: String::new() }));
}

#[test]
fn next_id_takes_later_candidate() {
    assert_eq!(next_id(None, 7), Some(7));
    assert_eq!(next_id(Some(5), 9), Some(9));
    assert_eq!(next_id(Some(9), 9), Some(10));
    assert_eq!(next_id(Some(9), 3), Some(10));
    assert_eq!(next_id(Some(u128::MAX), 3), None);
}

#[test]
fn line_payload_strips_one_newline() {
    assert_eq!(line_payload(b"a\n"), b"a".to_vec());
    assert_eq!(line_payload(b"a"), b"a".to_vec());
    assert_eq!(line_payload(b"a\n\n"), b"a\n".to_vec());
    assert_eq!(line_payload(b""), Vec::<u8>::new());
    assert_eq!(line_payload(b"\n"), Vec::<u8>::new());
}

#[test]
fn base64_digest_check() {
    assert!(is_base64_digest("LPJNul+wow4m6DsqxbninhsWHlwfp0JecwQzYpOLmCQ="));
    assert!(is_base64_digest("AAA="));
    assert!(is_base64_digest("AAAA"));
    assert!(!is_base64_digest("AA=="));
    assert!(!is_base64_digest("AAB="));
    assert!(!is_base64_digest("abc"));
    assert!(!is_base64_digest("ab-d"));
    assert!(!is_base64_digest(""));
}

#[test]
fn frames_of_entries_checks_keys() {
    let f = Frame { id: 9, hash: "sha256-AAAA".to_string() };
    let good = vec![(id_to_key(9), encode_record(&f))];
    assert_eq!(frames_of_entries(&good), Ok(vec![f.clone()]));
    let wrong_key = vec![(id_to_key(8), encode_record(&f))];
    assert_eq!(frames_of_entries(&wrong_key), Err(StoreError::Decode));
    let short_key = vec![(vec![9u8], encode_record(&f))];
    assert_eq!(frames_of_entries(&short_key), Err(StoreError::Decode));
    assert_eq!(frames_of_entries(&Vec::new()), Ok(Vec::new()));
}

#[test]
fn last_id_of_reads_key() {
    assert_eq!(last_id_of(None), Ok(None));
    assert_eq!(last_id_of(Some(id_to_key(77))), Ok(Some(77)));
    assert_eq!(last_id_of(Some(vec![1, 2, 3])), Err(StoreError::Decode));
}

#[test]
fn parse_hash_accepts_one_usable_descriptor() {
    let sri = parse_hash("sha256-LPJNul+wow4m6DsqxbninhsWHlwfp0JecwQzYpOLmCQ=").unwrap();
    assert_eq!(sri.hashes.len(), 1);
    assert_eq!(sri.hashes[0].digest, "LPJNul+wow4m6DsqxbninhsWHlwfp0JecwQzYpOLmCQ=");
    assert!(parse_hash("").is_err());
    assert!(parse_hash("   ").is_err());
    assert!(parse_hash("nope").is_err());
    assert!(parse_hash("sha256-abc").is_err());
}
