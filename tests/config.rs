use lianghua_rs::config::{parse_scope_way, ScopeWayError};
use lianghua_rs::scoring::ScopeWay;
use lianghua_rs::text::{chars_of, is_blank, parse_usize};

#[test]
fn scope_way_names_any_case_and_trimmed() {
    assert_eq!(parse_scope_way("ANY"), Ok(ScopeWay::Any));
    assert_eq!(parse_scope_way("  last\t"), Ok(ScopeWay::Last));
    assert_eq!(parse_scope_way("Each"), Ok(ScopeWay::Each));
    assert_eq!(parse_scope_way("recent "), Ok(ScopeWay::Recent));
}

#[test]
fn scope_way_consec_counts() {
    assert_eq!(parse_scope_way("CONSEC>=3"), Ok(ScopeWay::Consec(3)));
    assert_eq!(parse_scope_way(" consec>=12 "), Ok(ScopeWay::Consec(12)));
    assert_eq!(parse_scope_way("CONSEC>=+2"), Ok(ScopeWay::Consec(2)));
    assert_eq!(parse_scope_way("CONSEC>=0"), Err(ScopeWayError::ZeroCount));
    assert_eq!(parse_scope_way("CONSEC>="), Err(ScopeWayError::BadCount));
    assert_eq!(parse_scope_way("CONSEC>=x"), Err(ScopeWayError::BadCount));
    assert_eq!(parse_scope_way("CONSEC>=-1"), Err(ScopeWayError::BadCount));
    assert_eq!(
        parse_scope_way("CONSEC>=99999999999999999999999"),
        Err(ScopeWayError::BadCount)
    );
}

#[test]
fn scope_way_unknown_names() {
    assert_eq!(parse_scope_way(""), Err(ScopeWayError::Unknown));
    assert_eq!(parse_scope_way("ALL"), Err(ScopeWayError::Unknown));
    assert_eq!(parse_scope_way("CONSEC>3"), Err(ScopeWayError::Unknown));
    assert_eq!(parse_scope_way("AN Y"), Err(ScopeWayError::Unknown));
}

#[test]
fn usize_reading_matches_std() {
    for s in ["0", "7", "+42", "18446744073709551615", "18446744073709551616", "", "+", "1a", " 1", "-0"] {
        let v = chars_of(s);
        assert_eq!(parse_usize(&v, 0, v.len()), s.parse::<u64>().ok().map(|x| x as usize), "{s}");
    }
}

#[test]
fn blank_strings() {
    assert!(is_blank(""));
    assert!(is_blank(" \t\r\n\u{00a0}"));
    assert!(!is_blank(" a "));
}
