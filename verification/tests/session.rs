use extensao::session::{parse_ip, parse_session, set_cookie, unset_cookie};

#[test]
fn set_cookie_carries_code_and_slot() {
    assert_eq!(set_cookie("BAK", 0), "session=BAK:0; max-age=3600; path=/;");
    assert_eq!(set_cookie("QUZ", 17), "session=QUZ:17; max-age=3600; path=/;");
}

#[test]
fn unset_cookie_expires_the_session() {
    assert_eq!(unset_cookie(), "session=; max-age=0; path=/;");
}

#[test]
fn parse_session_splits_code_and_slot() {
    assert_eq!(parse_session("BAK:0"), Some(("BAK".to_owned(), 0)));
    assert_eq!(parse_session("BAK:12"), Some(("BAK".to_owned(), 12)));
    // An unsigned-integer parse takes one optional leading plus sign.
    assert_eq!(parse_session("BAK:+12"), Some(("BAK".to_owned(), 12)));
    // The code part is free text up to the first colon.
    assert_eq!(parse_session(":3"), Some(("".to_owned(), 3)));
}

#[test]
fn parse_session_rejects_tokens_without_the_shape() {
    assert_eq!(parse_session(""), None);
    assert_eq!(parse_session("BAK"), None);
    assert_eq!(parse_session("BAK:"), None);
    assert_eq!(parse_session("BAK:x"), None);
    assert_eq!(parse_session("BAK:+"), None);
    assert_eq!(parse_session("BAK:++1"), None);
    assert_eq!(parse_session("BAK:-1"), None);
    assert_eq!(parse_session("BAK:1x"), None);
    assert_eq!(parse_session("a:b:2"), None);
    // A slot beyond the wire range is no session either.
    assert_eq!(parse_session("BAK:4294967296"), None);
}

#[test]
fn parse_ip_reads_dotted_decimal() {
    assert_eq!(parse_ip(""), Some([0, 0, 0, 0]));
    assert_eq!(parse_ip("0.0.0.0"), Some([0, 0, 0, 0]));
    assert_eq!(parse_ip("127.0.0.1"), Some([127, 0, 0, 1]));
    assert_eq!(parse_ip("255.255.255.255"), Some([255, 255, 255, 255]));
    // An unsigned-integer parse takes one optional leading plus per part.
    assert_eq!(parse_ip("+1.2.+3.4"), Some([1, 2, 3, 4]));
}

#[test]
fn parse_ip_rejects_other_shapes() {
    assert_eq!(parse_ip("256.0.0.1"), None);
    assert_eq!(parse_ip("1.2.3"), None);
    assert_eq!(parse_ip("1.2.3.4.5"), None);
    assert_eq!(parse_ip("1..3.4"), None);
    assert_eq!(parse_ip("a.b.c.d"), None);
    assert_eq!(parse_ip("1.2.3.4 "), None);
    assert_eq!(parse_ip("-1.2.3.4"), None);
    assert_eq!(parse_ip("++1.2.3.4"), None);
    assert_eq!(parse_ip("+.2.3.4"), None);
}
