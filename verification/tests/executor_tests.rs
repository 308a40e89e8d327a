use dpdb::Error;
use dpdb::{handle_statement, ErrorKind, Executor, Report, Response};

#[test]
fn executor_test() {
    // A small threshold stands in for a workload big enough to flush.
    let mut executor = Executor::new("/tmp/dpdb-test-storage").unwrap();
    executor.storage.set_threshold(1);
    let _ = executor.execute("attach bench.db");
    let _ = executor.execute("set sdafasdf sdfasdfasdfsadf");
    let _ = executor.execute("set sdafasdf sdfasdfasdfsadf");
    let _ = executor.execute("set sdafasdf sdfasdfasdfsadf");
    let _ = executor.execute("set needle hay");
    let report = executor.execute("get needle");
    assert!(matches!(report.response, Response::Record { .. }));
    // The flushed keys survive into a fresh executor bound to the same
    // files; the last unflushed write does not, as the write-ahead log is
    // not replayed.
    let files = executor.storage.fs.export_files();
    let mut executor = Executor::new("/tmp/dpdb-test-storage").unwrap();
    executor.storage.attach_dir("bench.db", files).unwrap();
    let report = executor.execute("get sdafasdf");
    assert!(matches!(report.response, Response::Record { .. }));
}

#[test]
fn execute_records_the_write() {
    let mut executor = Executor::new("d").unwrap();
    let report = executor.execute("set a 2");
    match report.response {
        Response::Record { key, value } => {
            assert_eq!(key, b"a".to_vec());
            assert_eq!(value, b"2".to_vec());
        },
        _ => panic!("set should confirm the written record"),
    }
    let report = executor.execute("get a");
    match report.response {
        Response::Record { key, value } => {
            assert_eq!(key, b"a".to_vec());
            assert_eq!(value, b"2".to_vec());
        },
        _ => panic!("get should find the written record"),
    }
}

#[test]
fn execute_wraps_failures() {
    let mut executor = Executor::new("d").unwrap();
    let report = executor.execute("no such verb");
    match report.response {
        Response::Error { msg } => assert_eq!(msg, "invalid sql"),
        _ => panic!("a parse failure should come back as an error body"),
    }
    let report = executor.execute("get missing");
    match report.response {
        Response::Error { msg } => assert_eq!(msg, "no value for the key"),
        _ => panic!("a missing key should come back as an error body"),
    }
}

#[test]
fn execute_appends_the_wal() {
    let mut executor = Executor::new("d").unwrap();
    let _ = executor.execute("set a 1");
    let _ = executor.execute("set b 2");
    let files = executor.storage.fs.export_files();
    let wal = files.iter().find(|f| f.name == "wal").unwrap();
    assert_eq!(wal.data, b"set a 1\nset b 2\n".to_vec());
}

#[test]
fn clear_statement() {
    let mut executor = Executor::new("d").unwrap();
    let _ = executor.execute("set a 1");
    let report = executor.execute("clear");
    assert!(matches!(report.response, Response::Okay));
    let report = executor.execute("get a");
    assert!(matches!(report.response, Response::Error { .. }));
}

#[test]
fn handle_statement_refuses_bad_lines() {
    let mut executor = Executor::new("d").unwrap();
    let e = handle_statement(&mut executor, "gibberish here today").unwrap_err();
    assert_eq!(e.kind, ErrorKind::Parser);
    let report = handle_statement(&mut executor, "set k v").unwrap();
    assert!(matches!(report.response, Response::Record { .. }));
}

#[test]
fn serialize_frames_the_body() {
    let report = Report { time_elapsed: 0, response: Response::Okay };
    assert_eq!(report.serialize().unwrap(), "<BEGIN>\r\nOk\r\n0ns\r\n<END>");
    let report = Report {
        time_elapsed: 1234,
        response: Response::Record { key: b"k".to_vec(), value: b"v".to_vec() },
    };
    assert_eq!(report.serialize().unwrap(), "<BEGIN>\r\nk: v\r\n1234ns\r\n<END>");
    let report = Report {
        time_elapsed: 7,
        response: Response::Error { msg: "invalid sql".to_string() },
    };
    assert_eq!(
        report.serialize().unwrap(),
        "<BEGIN>\r\nerror: invalid sql\r\n7ns\r\n<END>"
    );
}

#[test]
fn serialize_refuses_non_text_bytes() {
    // 0xFF never occurs in UTF-8, so this record has no text rendering.
    let report = Report {
        time_elapsed: 0,
        response: Response::Record { key: b"k".to_vec(), value: vec![0xFF, 0xFE] },
    };
    let e = report.serialize().unwrap_err();
    assert_eq!(e.kind, ErrorKind::Display);
    // Multi-byte text that is valid UTF-8 renders fine.
    let report = Report {
        time_elapsed: 0,
        response: Response::Record {
            key: "schl\u{00fc}ssel".as_bytes().to_vec(),
            value: "wert".as_bytes().to_vec(),
        },
    };
    assert_eq!(
        report.serialize().unwrap(),
        "<BEGIN>\r\nschl\u{00fc}ssel: wert\r\n0ns\r\n<END>"
    );
}

#[test]
fn error_messages() {
    assert_eq!(Error { kind: ErrorKind::Parser }.message(), "invalid sql");
    assert_eq!(Error { kind: ErrorKind::IO }.message(), "filesystem failure");
    assert_eq!(Error { kind: ErrorKind::Display }.message(), "display error");
    assert_eq!(Error { kind: ErrorKind::Key }.message(), "no value for the key");
    assert_eq!(Error { kind: ErrorKind::File }.message(), "wrong file or directory");
    assert_eq!(Error { kind: ErrorKind::Socket }.message(), "network problem");
    assert_eq!(Error { kind: ErrorKind::Unknown }.message(), "unknown error");
}
