use dpdb::{literal, parse_sql, ErrorKind, Keyword};

#[test]
fn parser_test() {
    let output = parse_sql("set a 2").unwrap();
    assert_eq!(output.key, "a");
    assert_eq!(output.value, "2");
}

#[test]
fn parse_set_verb() {
    let st = parse_sql("set name value").unwrap();
    assert!(matches!(st.verb, Keyword::SetValue));
    assert_eq!(st.key, "name");
    assert_eq!(st.value, "value");
}

#[test]
fn parse_get() {
    let st = parse_sql("get needle").unwrap();
    assert!(matches!(st.verb, Keyword::Get));
    assert_eq!(st.key, "needle");
    assert_eq!(st.value, "");
}

#[test]
fn parse_clear() {
    let st = parse_sql("clear").unwrap();
    assert!(matches!(st.verb, Keyword::Clear));
    assert_eq!(st.key, "");
}

#[test]
fn parse_clear_with_whitespace() {
    let st = parse_sql("  clear \t").unwrap();
    assert!(matches!(st.verb, Keyword::Clear));
}

#[test]
fn parse_move_and_attach() {
    let st = parse_sql("mv-to /tmp/elsewhere").unwrap();
    assert!(matches!(st.verb, Keyword::MoveFile));
    assert_eq!(st.key, "/tmp/elsewhere");
    let st = parse_sql("attach-to bench.db").unwrap();
    assert!(matches!(st.verb, Keyword::AttachFile));
    assert_eq!(st.key, "bench.db");
}

#[test]
fn parse_rejects_malformed_lines() {
    for line in [
        "",
        "   ",
        "frobnicate",
        "set onlykey",
        "set too many args here",
        "get",
        "get a b",
        "clear now",
        "Set a b",
        "setx a b",
        "getx a",
        "attach bench.db",
    ] {
        let e = parse_sql(line).unwrap_err();
        assert_eq!(e.kind, ErrorKind::Parser, "line {:?} should not parse", line);
    }
}

#[test]
fn literal_reads_leading_token() {
    assert_eq!(literal("abc def").unwrap(), "abc");
    assert_eq!(literal("abc").unwrap(), "abc");
    assert_eq!(literal("").unwrap_err().kind, ErrorKind::Parser);
    assert_eq!(literal(" abc").unwrap_err().kind, ErrorKind::Parser);
}
