use tempfile::TempDir;
use xs_store::error::StoreError;
use xs_store::store::{IngestMode, Store};

fn open(dir: &TempDir) -> Store {
    Store::new(dir.path().to_str().unwrap()).unwrap()
}

#[test]
fn test_put_binary_data() {
    let data = vec![0u8, 1, 2, 3, 4, 5];
    let temp_dir = TempDir::new().unwrap();
    let mut store = open(&temp_dir);
    let frame = store.put(&data).unwrap();
    let sri: ssri::Integrity = frame.hash.parse().unwrap();
    let read_data = cacache::read_hash_sync(store.cache_path(), &sri).unwrap();
    assert_eq!(data, read_data);
}

#[test]
fn test_put_string() {
    let data = "Hello, world!".as_bytes().to_vec();
    let temp_dir = TempDir::new().unwrap();
    let mut store = open(&temp_dir);
    let frame = store.put(&data).unwrap();
    let sri: ssri::Integrity = frame.hash.parse().unwrap();
    let read_data = cacache::read_hash_sync(store.cache_path(), &sri).unwrap();
    assert_eq!(data, read_data);
}

#[test]
fn put_hash_is_sha256_descriptor() {
    let dir = TempDir::new().unwrap();
    let mut store = open(&dir);
    let frame = store.put(b"hello").unwrap();
    assert_eq!(frame.hash, "sha256-LPJNul+wow4m6DsqxbninhsWHlwfp0JecwQzYpOLmCQ=");
}

#[test]
fn same_payload_twice_distinct_ids_same_hash() {
    let dir = TempDir::new().unwrap();
    let mut store = open(&dir);
    let a = store.put(b"hello").unwrap();
    let b = store.put(b"hello").unwrap();
    let frames = store.list().unwrap();
    assert_eq!(frames.len(), 2);
    assert_ne!(frames[0].id, frames[1].id);
    assert_eq!(frames[0].hash, frames[1].hash);
    assert_eq!(frames[0], a);
    assert_eq!(frames[1], b);
    assert_eq!(store.cat(&a.hash).unwrap(), b"hello".to_vec());
}

#[test]
fn different_payloads_different_hashes() {
    let dir = TempDir::new().unwrap();
    let mut store = open(&dir);
    let a = store.put(b"a").unwrap();
    let b = store.put(b"b").unwrap();
    assert_ne!(a.hash, b.hash);
}

#[test]
fn line_mode_records_in_order() {
    let dir = TempDir::new().unwrap();
    let mut store = open(&dir);
    let a = store.put_line(b"a\n").unwrap();
    let b = store.put_line(b"b\n").unwrap();
    let frames = store.list().unwrap();
    assert_eq!(frames, vec![a.clone(), b.clone()]);
    assert_eq!(store.cat(&frames[0].hash).unwrap(), b"a".to_vec());
    assert_eq!(store.cat(&frames[1].hash).unwrap(), b"b".to_vec());
}

#[test]
fn ids_strictly_increase() {
    let dir = TempDir::new().unwrap();
    let mut store = open(&dir);
    let mut last = 0u128;
    for i in 0..50u8 {
        let f = store.put(&[i]).unwrap();
        assert!(f.id > last);
        last = f.id;
    }
}

#[test]
fn list_returns_every_put_in_call_order() {
    let dir = TempDir::new().unwrap();
    let mut store = open(&dir);
    let mut puts = Vec::new();
    for i in 0..20u8 {
        puts.push(store.put(&[i, i]).unwrap());
    }
    assert_eq!(store.list().unwrap(), puts);
}

#[test]
fn round_trip_exact_bytes() {
    let dir = TempDir::new().unwrap();
    let mut store = open(&dir);
    let payloads: Vec<Vec<u8>> = vec![vec![], vec![0], vec![255, 0, 10, 13], (0..=255u8).collect()];
    for p in payloads {
        let f = store.put(&p).unwrap();
        assert_eq!(store.cat(&f.hash).unwrap(), p);
    }
}

#[test]
fn empty_store_lists_nothing() {
    let dir = TempDir::new().unwrap();
    let store = open(&dir);
    assert!(store.list().unwrap().is_empty());
}

#[test]
fn ids_keep_increasing_after_reopen() {
    let dir = TempDir::new().unwrap();
    let first = {
        let mut store = open(&dir);
        store.put(b"one").unwrap()
    };
    let mut store = open(&dir);
    let second = store.put(b"two").unwrap();
    assert!(second.id > first.id);
    assert_eq!(store.list().unwrap(), vec![first, second]);
}

#[test]
fn cat_of_unknown_hash_is_not_found() {
    let dir = TempDir::new().unwrap();
    let mut store = open(&dir);
    store.put(b"stored").unwrap();
    let other = ssri::Integrity::from(b"never stored").to_string();
    assert_eq!(store.cat(&other), Err(StoreError::NotFound));
}

#[test]
fn cat_of_malformed_hash_is_parse_error() {
    let dir = TempDir::new().unwrap();
    let store = open(&dir);
    assert_eq!(store.cat("not a hash"), Err(StoreError::Parse));
    assert_eq!(store.cat(""), Err(StoreError::Parse));
    assert_eq!(store.cat("sha256-abc"), Err(StoreError::Parse));
    assert_eq!(store.cat("sha256-AA=="), Err(StoreError::Parse));
}

#[test]
fn corrupted_blob_is_integrity_error() {
    let dir = TempDir::new().unwrap();
    let mut store = open(&dir);
    let f = store.put(b"precious").unwrap();
    let sri: ssri::Integrity = f.hash.parse().unwrap();
    let (_, hex) = sri.to_hex();
    let blob = dir
        .path()
        .join("cas")
        .join("content-v2")
        .join("sha256")
        .join(&hex[0..2])
        .join(&hex[2..4])
        .join(&hex[4..]);
    let mut tampered = tempfile::NamedTempFile::new_in(dir.path()).unwrap();
    std::io::Write::write_all(&mut tampered, b"tampered").unwrap();
    tampered.persist(&blob).unwrap();
    assert_eq!(store.cat(&f.hash), Err(StoreError::Integrity));
}

#[test]
fn ingest_byte_mode_one_record_per_byte() {
    let dir = TempDir::new().unwrap();
    let mut store = open(&dir);
    let frames = store.ingest(IngestMode::Byte, b"ab").unwrap();
    assert_eq!(frames.len(), 2);
    assert!(frames[0].id < frames[1].id);
    assert_eq!(store.cat(&frames[0].hash).unwrap(), b"a".to_vec());
    assert_eq!(store.cat(&frames[1].hash).unwrap(), b"b".to_vec());
    assert_eq!(store.list().unwrap(), frames);
}

#[test]
fn ingest_whole_and_line_modes() {
    let dir = TempDir::new().unwrap();
    let mut store = open(&dir);
    let whole = store.ingest(IngestMode::Whole, b"x\ny\n").unwrap();
    let line = store.ingest(IngestMode::Line, b"x\n").unwrap();
    assert_eq!(whole.len(), 1);
    assert_eq!(line.len(), 1);
    assert_eq!(store.cat(&whole[0].hash).unwrap(), b"x\ny\n".to_vec());
    assert_eq!(store.cat(&line[0].hash).unwrap(), b"x".to_vec());
    assert!(store.ingest(IngestMode::Byte, b"").unwrap().is_empty());
    assert_eq!(store.list().unwrap().len(), 2);
}

#[test]
fn cat_integrity_checks_shape_first() {
    let dir = TempDir::new().unwrap();
    let mut store = open(&dir);
    let f = store.put(b"shape").unwrap();
    let good: ssri::Integrity = f.hash.parse().unwrap();
    assert_eq!(store.cat_integrity(&good).unwrap(), b"shape".to_vec());
    let empty: ssri::Integrity = "".parse().unwrap();
    assert_eq!(store.cat_integrity(&empty), Err(StoreError::Parse));
    let two: ssri::Integrity = format!("{} {}", f.hash, ssri::Integrity::from(b"x")).parse().unwrap();
    assert_eq!(store.cat_integrity(&two), Err(StoreError::Parse));
}

#[test]
fn scan_step_by_step_matches_list() {
    let dir = TempDir::new().unwrap();
    let mut store = open(&dir);
    assert_eq!(store.next_after(None), Ok(None));
    let a = store.put(b"first").unwrap();
    let b = store.put(b"second").unwrap();
    let c = store.put(b"third").unwrap();
    assert_eq!(store.next_after(None), Ok(Some(a.clone())));
    assert_eq!(store.next_after(Some(a.id)), Ok(Some(b.clone())));
    assert_eq!(store.next_after(Some(b.id)), Ok(Some(c.clone())));
    assert_eq!(store.next_after(Some(c.id)), Ok(None));
    assert_eq!(store.next_after(Some(a.id - 1)), Ok(Some(a.clone())));
    let mut scanned = Vec::new();
    let mut after = None;
    while let Some(f) = store.next_after(after).unwrap() {
        after = Some(f.id);
        scanned.push(f);
    }
    assert_eq!(scanned, store.list().unwrap());
}

#[test]
fn cat_accepts_every_put_hash() {
    let dir = TempDir::new().unwrap();
    let mut store = open(&dir);
    for p in [&b""[..], b"x", b"hello world", &[0u8, 255, 7]] {
        let f = store.put(p).unwrap();
        assert!(f.hash.starts_with("sha256-"));
        assert!(xs_store::cas::is_base64_digest(&f.hash[7..]));
        assert_eq!(store.cat(&f.hash).unwrap(), p.to_vec());
    }
}
