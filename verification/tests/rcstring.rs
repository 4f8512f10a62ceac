use buffer::rcstring::Bound;
use buffer::rcstring::RcString;

#[test]
fn test_new() {
    let rs = RcString::new("abc");
    assert_eq!(rs.str(), "abc");
}

#[test]
fn test_substr() {
    let rs = RcString::new("abcdefg");
    assert_eq!(rs.str(), "abcdefg");
    let rs2 = rs.substr(2, 4);
    assert_eq!(rs2.str(), "cdef");
    let rs3 = rs2.substr(2, 1);
    assert_eq!(rs3.str(), "e");
    assert_eq!(rs3.substr(1, 0).str(), "");
    assert_eq!(rs3.substr(0, 10).str(), "e");
    assert_eq!(rs3.substr(15, 3).str(), "");
}

#[test]
fn test_slice() {
    let rs = RcString::new("abcdefg");
    assert_eq!(rs.str(), "abcdefg");
    let rs2 = rs.slice(Bound::Included(2), Bound::Unbounded);
    assert_eq!(rs2.str(), "cdefg");
    let rs3 = rs2.slice(Bound::Included(2), Bound::Excluded(3));
    assert_eq!(rs3.str(), "e");
    assert_eq!(rs3.slice(Bound::Included(0), Bound::Excluded(10)).str(), "e");
    assert_eq!(rs3.slice(Bound::Included(15), Bound::Excluded(18)).str(), "");
}

#[test]
fn rcstring_test_len() {
    let rs = RcString::new("abcdefg");
    assert_eq!(rs.len(), 7);
    let rs2 = rs.substr(2, 4);
    assert_eq!(rs2.len(), 4);
    let rs3 = rs2.substr(2, 1);
    assert_eq!(rs3.len(), 1);
    assert_eq!(rs3.substr(1, 0).len(), 0);
    assert_eq!(rs3.substr(0, 10).len(), 1);
    assert_eq!(rs3.substr(15, 3).len(), 0);
}

#[test]
fn rcstring_test_lenlines() {
    let rs = RcString::new("\nab\nc\ndefg\n");
    assert_eq!(rs.lenlines(), 4);
    let rs2 = rs.substr(2, 4);
    assert_eq!(rs2.lenlines(), 2);
    let rs3 = rs2.substr(2, 1);
    assert_eq!(rs3.lenlines(), 0);
    assert_eq!(rs3.substr(1, 0).lenlines(), 0);
}

#[test]
fn content_equality() {
    let rs = RcString::new("hello world");
    assert_eq!(rs.slice(Bound::Included(0), Bound::Included(4)), RcString::new("hello"));
    assert_eq!(rs.substr(0, 5), RcString::new("hello"));
    assert!(rs.substr(0, 5) != rs.substr(6, 5));
    assert!(rs.substr(0, 4) != rs.substr(0, 5));
}

#[test]
fn shared_buffer_independence() {
    let source = RcString::new("hello world");
    let a = source.substr(0, 5);
    let b = source.substr(6, 5);
    assert_eq!(source.str(), "hello world");
    drop(source);
    assert_eq!(a.str(), "hello");
    assert_eq!(b.str(), "world");
    assert_eq!(a.len(), 5);
    assert_eq!(b.len(), 5);
}
