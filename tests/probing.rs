use li_domain_scanner::{domain_name, parse_response, query_line, reply_from_trimmed, DomainStatus, ProbeResult, SENTINEL_CODE};

#[test]
fn status_table() {
    assert_eq!(DomainStatus::from_reply_code(1), DomainStatus::Available);
    assert_eq!(DomainStatus::from_reply_code(0), DomainStatus::Registered);
    assert_eq!(DomainStatus::from_reply_code(-95), DomainStatus::RateLimited);
    for code in [42, -99, 2, -1, -94, -96, i32::MIN, i32::MAX] {
        assert_eq!(DomainStatus::from_reply_code(code), DomainStatus::Error);
    }
}

#[test]
fn status_names() {
    assert_eq!(DomainStatus::Available.as_str(), "available");
    assert_eq!(DomainStatus::Registered.as_str(), "registered");
    assert_eq!(DomainStatus::RateLimited.as_str(), "rate_limited");
    assert_eq!(DomainStatus::Error.as_str(), "error");
}

#[test]
fn malformed_reply() {
    let r = parse_response("garbage");
    assert_eq!(r.code, -99);
    assert_eq!(r.message, "garbage");
    assert_eq!(DomainStatus::from_reply_code(r.code), DomainStatus::Error);
}

#[test]
fn well_formed_replies() {
    let r = parse_response("1:ok");
    assert_eq!((r.code, r.message.as_str()), (1, "ok"));
    let r = parse_response("0:taken\n");
    assert_eq!((r.code, r.message.as_str()), (0, "taken"));
    let r = parse_response("-95:slow");
    assert_eq!((r.code, r.message.as_str()), (-95, "slow"));
    let r = parse_response("+7:a:b");
    assert_eq!((r.code, r.message.as_str()), (7, "a:b"));
}

#[test]
fn reply_trimming() {
    let r = parse_response("  1: available \r\n");
    assert_eq!((r.code, r.message.as_str()), (1, "available"));
    let r = parse_response(" 1 :x");
    assert_eq!((r.code, r.message.as_str()), (SENTINEL_CODE, "x"));
    let r = reply_from_trimmed(" 1:x");
    assert_eq!(r.code, SENTINEL_CODE);
}

#[test]
fn unreadable_codes() {
    let r = parse_response("abc:xyz");
    assert_eq!((r.code, r.message.as_str()), (-99, "xyz"));
    let r = parse_response("99999999999:big");
    assert_eq!((r.code, r.message.as_str()), (-99, "big"));
    let r = parse_response("-:x");
    assert_eq!(r.code, -99);
    let r = parse_response("");
    assert_eq!((r.code, r.message.as_str()), (-99, ""));
}

#[test]
fn domain_and_query() {
    assert_eq!(domain_name("ab"), "ab.li");
    assert_eq!(query_line("ab"), "ab.li\n");
}

#[test]
fn result_from_response() {
    let r = ProbeResult::from_response("a", "1:ok", 1000);
    assert_eq!(r.domain, "a.li");
    assert_eq!(r.status, DomainStatus::Available);
    assert_eq!(r.reply_code, 1);
    assert_eq!(r.message, "ok");
    assert_eq!(r.timestamp_ms, 1000);
    let r = ProbeResult::from_response("b", "-95:slow", 5);
    assert_eq!(r.status, DomainStatus::RateLimited);
}

#[test]
fn failed_result() {
    let r = ProbeResult::failed("zz", "connection refused", 7);
    assert_eq!(r.domain, "zz.li");
    assert_eq!(r.status, DomainStatus::Error);
    assert_eq!(r.reply_code, -99);
    assert_eq!(r.message, "connection refused");
}
