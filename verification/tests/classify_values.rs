use clparse::classify::classify_string;
use clparse::parser_structs::CLArgument;

fn classify(s: &str) -> CLArgument {
    classify_string(String::from(s))
}

#[test]
fn classify_u16_values() {
    assert!(matches!(classify("8080"), CLArgument::U16(8080)));
    assert!(matches!(classify("+17"), CLArgument::U16(17)));
    assert!(matches!(classify("0"), CLArgument::U16(0)));
    assert!(matches!(classify("65535"), CLArgument::U16(65535)));
}

#[test]
fn classify_i64_values() {
    assert!(matches!(classify("65536"), CLArgument::Integer(65536)));
    assert!(matches!(classify("-5"), CLArgument::Integer(-5)));
    assert!(matches!(
        classify("9223372036854775807"),
        CLArgument::Integer(9223372036854775807)
    ));
    assert!(matches!(
        classify("-9223372036854775808"),
        CLArgument::Integer(-9223372036854775808)
    ));
}

#[test]
fn classify_float_values() {
    match classify("3.14") {
        CLArgument::Float(s) => assert_eq!(s, "3.14"),
        other => panic!("expected Float, got {:?}", other),
    }
    assert!(matches!(classify("1e3"), CLArgument::Float(_)));
    assert!(matches!(classify("-2.5E-4"), CLArgument::Float(_)));
    assert!(matches!(classify("inf"), CLArgument::Float(_)));
    assert!(matches!(classify("NaN"), CLArgument::Float(_)));
    assert!(matches!(classify(".5"), CLArgument::Float(_)));
    // an i64 overflow still reads as a numeric literal
    assert!(matches!(
        classify("9223372036854775808"),
        CLArgument::Float(_)
    ));
    // a lone dot has no digit at all
    assert!(matches!(classify("."), CLArgument::RawString(_)));
}

#[test]
fn classify_bool_values() {
    assert!(matches!(classify("true"), CLArgument::Boolean(true)));
    assert!(matches!(classify("false"), CLArgument::Boolean(false)));
    // only the exact literals count
    assert!(matches!(classify("True"), CLArgument::RawString(_)));
}

#[test]
fn classify_ip_addresses() {
    assert!(matches!(classify("192.168.0.1"), CLArgument::IPAddress(_)));
    assert!(matches!(classify("0.0.0.0"), CLArgument::IPAddress(_)));
    // not a valid literal, but caught by the fallback pattern
    assert!(matches!(classify("256.1.1.1"), CLArgument::IPAddress(_)));
    assert!(matches!(classify("01.2.3.4"), CLArgument::IPAddress(_)));
    // IPv6-looking strings fall through to the fallback pattern too
    assert!(matches!(classify("::1"), CLArgument::IPAddress(_)));
    assert!(matches!(classify("fe80::abcd"), CLArgument::IPAddress(_)));
}

#[test]
fn classify_remote_paths() {
    match classify("remotehost:test.tar.gz") {
        CLArgument::RemotePath(s) => assert_eq!(s, "remotehost:test.tar.gz"),
        other => panic!("expected RemotePath, got {:?}", other),
    }
    assert!(matches!(
        classify("user@host.domain:/path/file"),
        CLArgument::RemotePath(_)
    ));
    // an empty host is no remote path
    assert!(matches!(classify(":path"), CLArgument::RawString(_)));
}

#[test]
fn classify_local_paths() {
    assert!(matches!(classify("/bin/ssh"), CLArgument::LocalPath(_)));
    assert!(matches!(classify("./run.sh"), CLArgument::LocalPath(_)));
    assert!(matches!(classify("../up/x"), CLArgument::LocalPath(_)));
    assert!(matches!(classify("backup.tar.gz"), CLArgument::LocalPath(_)));
    assert!(matches!(classify("photo.png"), CLArgument::LocalPath(_)));
    assert!(matches!(classify("archive.tar.bz2"), CLArgument::LocalPath(_)));
    // a bare relative name with no recognized extension stays raw
    assert!(matches!(classify("sub/dir"), CLArgument::RawString(_)));
}

#[test]
fn classify_urls() {
    assert!(matches!(
        classify("https://example.com/x"),
        CLArgument::URL(_)
    ));
    assert!(matches!(classify("http://a"), CLArgument::URL(_)));
    // the prefix alone is not enough
    assert!(matches!(classify("http://"), CLArgument::RawString(_)));
}

#[test]
fn classify_fallback_raw_string() {
    match classify("hello world") {
        CLArgument::RawString(s) => assert_eq!(s, "hello world"),
        other => panic!("expected RawString, got {:?}", other),
    }
    assert!(matches!(classify(""), CLArgument::RawString(_)));
}

#[test]
fn classify_is_deterministic() {
    for s in [
        "8080", "-5", "3.14", "true", "192.168.0.1", "host:path", "./x", "http://a", "misc",
    ] {
        let a = format!("{:?}", classify(s));
        let b = format!("{:?}", classify(s));
        assert_eq!(a, b);
    }
}

#[test]
fn identify_type_reclassifies_raw_strings_only() {
    let mut v = CLArgument::RawString(String::from("8080"));
    v.identify_type();
    assert!(matches!(v, CLArgument::U16(8080)));

    let mut w = CLArgument::Integer(5);
    w.identify_type();
    assert!(matches!(w, CLArgument::Integer(5)));
}
