use mbpoll::addr::{parse_addrs, AddrError};

#[test]
fn single() {
    assert_eq!(parse_addrs("100").unwrap(), vec![100]);
}

#[test]
fn list() {
    assert_eq!(parse_addrs("100,101,105").unwrap(), vec![100, 101, 105]);
}

#[test]
fn range() {
    assert_eq!(parse_addrs("100-102").unwrap(), vec![100, 101, 102]);
}

#[test]
fn combo_sorted_dedup() {
    assert_eq!(parse_addrs("3-1").is_err(), true);
    assert_eq!(parse_addrs("1-3,2, 5, 4-4").unwrap(), vec![1, 2, 3, 4, 5]);
}

#[test]
fn errors() {
    for s in ["", " ", ",1", "1,", "10-", "-10", "1-2-3", "abc", "70000"] {
        assert!(parse_addrs(s).is_err(), "expected error for {s:?}");
    }
}

#[test]
fn error_kinds() {
    assert_eq!(parse_addrs("  \t"), Err(AddrError::Empty));
    assert_eq!(parse_addrs("1,,2"), Err(AddrError::EmptyPart));
    assert_eq!(parse_addrs("10-"), Err(AddrError::BadRange));
    assert_eq!(parse_addrs("1-2-3"), Err(AddrError::BadRange));
    assert_eq!(parse_addrs("abc"), Err(AddrError::BadNumber));
    assert_eq!(parse_addrs("99999999999"), Err(AddrError::BadNumber));
    assert_eq!(parse_addrs("70000"), Err(AddrError::OutOfRange));
    assert_eq!(parse_addrs("5-3"), Err(AddrError::Reversed));
    assert_eq!(parse_addrs("x,70000"), Err(AddrError::BadNumber));
}

#[test]
fn edges_and_plus_sign() {
    assert_eq!(parse_addrs("+7").unwrap(), vec![7]);
    assert_eq!(parse_addrs(" 65534 - 65535 ,0").unwrap(), vec![0, 65534, 65535]);
    assert_eq!(parse_addrs("65535").unwrap(), vec![65535]);
    assert_eq!(parse_addrs("0-0").unwrap(), vec![0]);
}
