use std::collections::BTreeMap;

use p2p_storage::codec::{decode_envelope, encode_envelope};
use p2p_storage::engine::{
    decode_entry, plan_write, read_all_chunks, scan_key_prefix, write_outcome, FileChunks,
    ScanEntry, ScanPolicy, ScanStep, StoreError,
};
use p2p_storage::keys::{chunk_key, scan_prefix};

/// An ordered in-memory stand-in for the key-value store.
struct MemStore {
    entries: BTreeMap<Vec<u8>, Vec<u8>>,
}

impl MemStore {
    fn new() -> MemStore {
        MemStore { entries: BTreeMap::new() }
    }

    fn write(&mut self, file_key: &str, chunk_hash: &str, payload: &str) {
        let w = plan_write(file_key, chunk_hash, payload).unwrap();
        self.entries.insert(w.key, w.value);
    }

    fn put_raw(&mut self, key: Vec<u8>, value: Vec<u8>) {
        self.entries.insert(key, value);
    }

    fn scan(&self, file_key: &str) -> Vec<ScanStep> {
        let prefix = scan_key_prefix(file_key);
        self.entries
            .range(prefix.clone()..)
            .take_while(|(k, _)| k.starts_with(&prefix))
            .map(|(k, v)| ScanStep::Entry(ScanEntry { key: k.clone(), value: v.clone() }))
            .collect()
    }

    fn read(&self, file_key: &str, policy: ScanPolicy) -> Result<FileChunks, StoreError> {
        read_all_chunks(file_key.to_string(), &self.scan(file_key), policy)
    }
}

fn pairs(f: &FileChunks) -> Vec<(String, String)> {
    f.chunks.iter().map(|c| (c.key.clone(), c.value.clone())).collect()
}

fn entry(key: &[u8], value: &[u8]) -> ScanStep {
    ScanStep::Entry(ScanEntry { key: key.to_vec(), value: value.to_vec() })
}

#[test]
fn chunk_key_joins_with_separator() {
    assert_eq!(chunk_key("doc", "h1"), "doc:h1");
    assert_eq!(chunk_key("a:b", "c"), "a:b:c");
    assert_eq!(scan_prefix("doc"), "doc:");
    assert_eq!(scan_key_prefix("doc"), b"doc:".to_vec());
    assert_eq!(scan_key_prefix("é"), "é:".as_bytes().to_vec());
}

#[test]
fn envelope_is_a_json_object_with_value() {
    assert_eq!(encode_envelope("QQ=="), br#"{"value":"QQ=="}"#.to_vec());
    assert_eq!(encode_envelope("a\"b\\"), br#"{"value":"a\"b\\"}"#.to_vec());
    assert_eq!(encode_envelope(""), br#"{"value":""}"#.to_vec());
    assert_eq!(encode_envelope("\t\n\u{1}\u{1f}"), br#"{"value":"\t\n\u0001\u001f"}"#.to_vec());
    assert_eq!(encode_envelope("é"), "{\"value\":\"é\"}".as_bytes().to_vec());
}

#[test]
fn envelope_round_trips() {
    for p in ["QQ==", "", "line\nbreak", "quote\"back\\slash", "ünï", "\u{0}\u{7f}"] {
        let e = encode_envelope(p);
        assert_eq!(decode_envelope(&e), Some(p.to_string()));
    }
}

#[test]
fn envelope_decode_rejects_malformed() {
    assert_eq!(decode_envelope(b""), None);
    assert_eq!(decode_envelope(b"QQ=="), None);
    assert_eq!(decode_envelope(br#"{"value":QQ==}"#), None);
    assert_eq!(decode_envelope(br#"{"value":"QQ=="#), None);
    assert_eq!(decode_envelope(br#"{"other":"QQ=="}"#), None);
    assert_eq!(decode_envelope(br#"{"value":1}"#), None);
    assert_eq!(decode_envelope(br#""QQ==""#), None);
}

#[test]
fn envelope_decode_accepts_any_layout() {
    assert_eq!(decode_envelope(br#"{"value":"x"}"#), Some("x".to_string()));
    assert_eq!(decode_envelope(br#"{ "value" : "x" }"#), Some("x".to_string()));
    assert_eq!(decode_envelope(br#"{"extra":1,"value":"x"}"#), Some("x".to_string()));
    assert_eq!(decode_envelope(b"{\"value\":\"x\"}\n"), Some("x".to_string()));
}

#[test]
fn plan_write_builds_key_and_envelope() {
    let w = plan_write("doc", "h1", "QQ==").unwrap();
    assert_eq!(w.key, b"doc:h1".to_vec());
    assert_eq!(w.value, br#"{"value":"QQ=="}"#.to_vec());
}

#[test]
fn write_outcome_needs_put_and_flush() {
    assert_eq!(write_outcome(true, true), Ok(()));
    assert_eq!(write_outcome(false, false), Err(StoreError::StorageFailure));
    assert_eq!(write_outcome(true, false), Err(StoreError::StorageFailure));
    assert_eq!(write_outcome(false, true), Err(StoreError::StorageFailure));
}

#[test]
fn default_policy_skips() {
    assert_eq!(ScanPolicy::default(), ScanPolicy::SkipCorrupt);
}

#[test]
fn written_chunk_is_read_back() {
    let mut s = MemStore::new();
    s.write("f", "x", "payload");
    s.write("g", "y", "other");
    let r = s.read("f", ScanPolicy::SkipCorrupt).unwrap();
    assert_eq!(r.file_key, "f");
    assert!(pairs(&r).contains(&("f:x".to_string(), "payload".to_string())));
}

#[test]
fn empty_file_reads_empty_ok() {
    let mut s = MemStore::new();
    s.write("other", "h", "QQ==");
    let r = s.read("doc", ScanPolicy::SkipCorrupt).unwrap();
    assert_eq!(r.file_key, "doc");
    assert!(r.chunks.is_empty());
    let r = read_all_chunks("doc".to_string(), &Vec::new(), ScanPolicy::AbortOnCorrupt).unwrap();
    assert!(r.chunks.is_empty());
}

#[test]
fn chunks_come_in_key_order() {
    let mut s = MemStore::new();
    s.write("f", "a", "1");
    s.write("f", "c", "3");
    s.write("f", "b", "2");
    let r = s.read("f", ScanPolicy::SkipCorrupt).unwrap();
    let keys: Vec<String> = r.chunks.iter().map(|c| c.key.clone()).collect();
    assert_eq!(keys, vec!["f:a", "f:b", "f:c"]);
}

#[test]
fn rewrite_keeps_last_payload_once() {
    let mut s = MemStore::new();
    s.write("f", "h", "first");
    s.write("f", "h", "second");
    let r = s.read("f", ScanPolicy::SkipCorrupt).unwrap();
    assert_eq!(pairs(&r), vec![("f:h".to_string(), "second".to_string())]);
}

#[test]
fn prefix_sharing_files_stay_apart() {
    let mut s = MemStore::new();
    s.write("file1", "a", "one");
    s.write("file10", "b", "ten");
    let r1 = s.read("file1", ScanPolicy::SkipCorrupt).unwrap();
    assert_eq!(pairs(&r1), vec![("file1:a".to_string(), "one".to_string())]);
    let r10 = s.read("file10", ScanPolicy::SkipCorrupt).unwrap();
    assert_eq!(pairs(&r10), vec![("file10:b".to_string(), "ten".to_string())]);
}

#[test]
fn store_then_retrieve_doc() {
    let mut s = MemStore::new();
    s.write("doc", "h1", "QQ==");
    s.write("doc", "h2", "Qg==");
    let r = s.read("doc", ScanPolicy::default()).unwrap();
    assert_eq!(r.file_key, "doc");
    assert_eq!(
        pairs(&r),
        vec![
            ("doc:h1".to_string(), "QQ==".to_string()),
            ("doc:h2".to_string(), "Qg==".to_string()),
        ]
    );
}

#[test]
fn corrupt_entries_are_skipped_or_abort() {
    let mut s = MemStore::new();
    s.write("f", "a", "ok");
    s.put_raw(b"f:b".to_vec(), b"not an envelope".to_vec());
    s.put_raw(vec![b'f', b':', 0xff], br#"{"value":"x"}"#.to_vec());
    s.write("f", "c", "fine");
    let r = s.read("f", ScanPolicy::SkipCorrupt).unwrap();
    assert_eq!(
        pairs(&r),
        vec![("f:a".to_string(), "ok".to_string()), ("f:c".to_string(), "fine".to_string())]
    );
    assert_eq!(s.read("f", ScanPolicy::AbortOnCorrupt).unwrap_err(), StoreError::MalformedEnvelope);
}

#[test]
fn envelope_written_elsewhere_is_read() {
    let mut s = MemStore::new();
    s.put_raw(b"f:a".to_vec(), br#"{ "value": "QQ==", "v": 2 }"#.to_vec());
    let r = s.read("f", ScanPolicy::AbortOnCorrupt).unwrap();
    assert_eq!(pairs(&r), vec![("f:a".to_string(), "QQ==".to_string())]);
}

#[test]
fn undecodable_key_aborts_with_its_error() {
    let steps = vec![entry(&[b'f', b':', 0xc3], br#"{"value":"x"}"#)];
    let r = read_all_chunks("f".to_string(), &steps, ScanPolicy::AbortOnCorrupt);
    assert_eq!(r.unwrap_err(), StoreError::DecodeKeyFailure);
}

#[test]
fn interrupted_scan_fails_the_read() {
    let steps = vec![entry(b"f:a", br#"{"value":"x"}"#), ScanStep::Interrupted];
    let r = read_all_chunks("f".to_string(), &steps, ScanPolicy::SkipCorrupt);
    assert_eq!(r.unwrap_err(), StoreError::StorageFailure);
}

#[test]
fn decode_entry_reports_each_error() {
    let good = ScanEntry { key: b"f:a".to_vec(), value: br#"{"value":"QQ=="}"#.to_vec() };
    let rec = decode_entry(&good).unwrap();
    assert_eq!((rec.key.as_str(), rec.value.as_str()), ("f:a", "QQ=="));
    let bad_key = ScanEntry { key: vec![0xff], value: br#"{"value":"QQ=="}"#.to_vec() };
    assert_eq!(decode_entry(&bad_key).unwrap_err(), StoreError::DecodeKeyFailure);
    let bad_value = ScanEntry { key: b"f:a".to_vec(), value: b"{}".to_vec() };
    assert_eq!(decode_entry(&bad_value).unwrap_err(), StoreError::MalformedEnvelope);
}
