use dpdb::storage::fs::{magic, NamedFile};
use dpdb::storage::index::Index;
use dpdb::storage::Storage;
use dpdb::{ErrorKind, Response};

fn record_value(resp: Response) -> Vec<u8> {
    match resp {
        Response::Record { value, .. } => value,
        _ => panic!("expected a record response"),
    }
}

fn reopened(storage: &Storage) -> Storage {
    let files = storage.fs.export_files();
    let mut fresh = Storage::new("reopened").unwrap();
    fresh.attach_dir("reopened", files).unwrap();
    fresh
}

#[test]
fn write_visibility_without_flush() {
    let mut s = Storage::new("d").unwrap();
    s.set(b"k", b"v").unwrap();
    assert_eq!(record_value(s.get(b"k").unwrap()), b"v".to_vec());
}

#[test]
fn write_visibility_with_flush() {
    let mut s = Storage::new("d").unwrap();
    s.set_threshold(1);
    for i in 0..10u8 {
        let key = vec![b'k', b'0' + i];
        s.set(&key, b"some value").unwrap();
    }
    for i in 0..10u8 {
        let key = vec![b'k', b'0' + i];
        assert_eq!(record_value(s.get(&key).unwrap()), b"some value".to_vec());
    }
}

#[test]
fn missing_key_is_key_error() {
    let mut s = Storage::new("d").unwrap();
    s.set(b"present", b"1").unwrap();
    let e = s.get(b"absent").unwrap_err();
    assert_eq!(e.kind, ErrorKind::Key);
}

#[test]
fn idempotent_overwrite() {
    let mut s = Storage::new("d").unwrap();
    s.set(b"k", b"v1").unwrap();
    s.set(b"k", b"v2").unwrap();
    assert_eq!(record_value(s.get(b"k").unwrap()), b"v2".to_vec());
    // The same holds when a flush lands between the writes.
    let mut s = Storage::new("d").unwrap();
    s.set_threshold(1);
    s.set(b"k", b"v1").unwrap();
    s.set(b"filler", b"force a flush").unwrap();
    s.set(b"k", b"v2").unwrap();
    assert_eq!(record_value(s.get(b"k").unwrap()), b"v2".to_vec());
}

#[test]
fn flush_durability() {
    let mut s = Storage::new("d").unwrap();
    s.set_threshold(1);
    s.set(b"alpha", b"1").unwrap();
    s.set(b"beta", b"2").unwrap();
    s.set(b"gamma", b"3").unwrap();
    // The threshold was exceeded, so segment files exist, each starting
    // with the 16-byte signature.
    let files = s.fs.export_files();
    let segments: Vec<&NamedFile> = files.iter().filter(|f| f.name.starts_with("data")).collect();
    assert!(segments.len() >= 1);
    for seg in &segments {
        assert!(seg.data.len() >= 16);
        assert_eq!(&seg.data[0..16], magic().as_slice());
    }
    // alpha and beta were flushed (gamma still sits in the buffer); a fresh
    // store bound to the same files still reads them, with a cold index.
    let mut fresh = reopened(&s);
    assert_eq!(record_value(fresh.get(b"alpha").unwrap()), b"1".to_vec());
    assert_eq!(record_value(fresh.get(b"beta").unwrap()), b"2".to_vec());
}

#[test]
fn clear_removes_everything() {
    let mut s = Storage::new("d").unwrap();
    s.set_threshold(1);
    s.set(b"a", b"1").unwrap();
    s.set(b"b", b"2").unwrap();
    s.set(b"c", b"3").unwrap();
    assert!(s.fs.num_segments() > 0);
    let resp = s.clear().unwrap();
    assert!(matches!(resp, Response::Okay));
    assert_eq!(s.fs.num_segments(), 0);
    for key in [b"a", b"b", b"c"] {
        assert_eq!(s.get(key).unwrap_err().kind, ErrorKind::Key);
    }
}

#[test]
fn concrete_scenario() {
    // An empty directory; the threshold is small enough that the second
    // write flushes the buffer.
    let mut s = Storage::new("scenario").unwrap();
    s.set_threshold(3);
    s.set(b"a", b"1").unwrap();
    s.set(b"b", b"2").unwrap();
    // The flush that the second write triggered wrote the buffered records
    // to the first segment file, named "data".
    let names = s.fs.scan_data_files();
    assert_eq!(names, vec!["data".to_string()]);
    let files = s.fs.export_files();
    let data = files.iter().find(|f| f.name == "data").unwrap();
    assert_eq!(&data.data[0..16], magic().as_slice());
    assert_eq!(record_value(s.get(b"a").unwrap()), b"1".to_vec());
    assert_eq!(record_value(s.get(b"b").unwrap()), b"2".to_vec());
    // Overwrite a; the new value is served from the buffer, unflushed.
    s.set(b"a", b"3").unwrap();
    assert_eq!(record_value(s.get(b"a").unwrap()), b"3".to_vec());
    // A restart reads only what was flushed: the unflushed overwrite is
    // lost, since the write-ahead log is not replayed on startup.
    let mut fresh = reopened(&s);
    assert_eq!(record_value(fresh.get(b"a").unwrap()), b"1".to_vec());
}

#[test]
fn segment_names_grow_strictly() {
    let mut s = Storage::new("d").unwrap();
    s.set_threshold(0);
    s.set(b"a", b"1").unwrap();
    s.set(b"b", b"2").unwrap();
    s.set(b"c", b"3").unwrap();
    let names = s.fs.scan_data_files();
    assert_eq!(
        names,
        vec!["data".to_string(), "data.1".to_string(), "data.2".to_string()]
    );
}

#[test]
fn reattach_reads_flushed_data() {
    // A directory holding a valid flushed segment is picked up again.
    let mut s = Storage::new("d").unwrap();
    s.set_threshold(1);
    s.set(b"k", b"v").unwrap();
    s.set(b"force", b"flush").unwrap();
    let files = s.fs.export_files();
    let mut other = Storage::new("e").unwrap();
    other.attach_dir("e", files).unwrap();
    assert_eq!(record_value(other.get(b"k").unwrap()), b"v".to_vec());
}

#[test]
fn corrupt_segment_aborts_the_scan() {
    let mut s = Storage::new("d").unwrap();
    let files = vec![NamedFile { name: "data".to_string(), data: b"not a database file".to_vec() }];
    s.attach_dir("d", files).unwrap();
    let e = s.get(b"k").unwrap_err();
    assert_eq!(e.kind, ErrorKind::IO);
}

#[test]
fn exhausted_segment_names_fail_the_write() {
    let mut s = Storage::new("d").unwrap();
    let name = format!("data.{}", u64::MAX);
    let files = vec![NamedFile { name, data: magic() }];
    s.attach_dir("d", files).unwrap();
    s.set_threshold(0);
    let e = s.set(b"k", b"v").unwrap_err();
    assert_eq!(e.kind, ErrorKind::IO);
}

#[test]
fn move_keeps_files_and_resets_caches() {
    let mut s = Storage::new("d").unwrap();
    s.set_threshold(1);
    s.set(b"k", b"v").unwrap();
    s.set(b"force", b"flush").unwrap();
    let before = s.fs.num_segments();
    s.move_dir("elsewhere").unwrap();
    assert_eq!(s.fs.dir, "elsewhere");
    assert_eq!(s.fs.num_segments(), before);
    // The buffer was reset, so the unflushed key is gone; the flushed one
    // is still found by scanning.
    assert_eq!(record_value(s.get(b"k").unwrap()), b"v".to_vec());
}

#[test]
fn index_bindings_overwrite() {
    let mut index = Index::new();
    assert!(index.insert(b"k", "data", 16).is_none());
    let prior = index.insert(b"k", "data.1", 42).unwrap();
    assert_eq!(prior.segment, "data");
    assert_eq!(prior.offset, 16);
    let node = index.get(b"k").unwrap();
    assert_eq!(node.segment, "data.1");
    assert_eq!(node.offset, 42);
    assert!(index.get(b"other").is_none());
    index.clear();
    assert!(index.get(b"k").is_none());
}

#[test]
fn scan_warms_the_index() {
    // A key found by the fallback scan is indexed, so the next read hits
    // the index; both reads agree.
    let mut s = Storage::new("d").unwrap();
    s.set_threshold(1);
    s.set(b"k", b"v").unwrap();
    s.set(b"force", b"flush").unwrap();
    let mut fresh = reopened(&s);
    let first = record_value(fresh.get(b"k").unwrap());
    let second = record_value(fresh.get(b"k").unwrap());
    assert_eq!(first, b"v".to_vec());
    assert_eq!(second, b"v".to_vec());
}
