//! Segment file names: formatting and parsing of generation numbers.

use kvs::{log_path, parse_gen};

#[test]
fn log_path_exact() {
    assert_eq!(log_path(1), "1.log");
    assert_eq!(log_path(42), "42.log");
    assert_eq!(log_path(0), "0.log");
    assert_eq!(log_path(1048576), "1048576.log");
}

#[test]
fn parse_gen_accepts_canonical_names() {
    assert_eq!(parse_gen("1.log"), Some(1));
    assert_eq!(parse_gen("42.log"), Some(42));
    assert_eq!(parse_gen("0.log"), Some(0));
    assert_eq!(parse_gen("18446744073709551606.log"), Some(18446744073709551606));
}

#[test]
fn parse_gen_rejects_other_names() {
    assert_eq!(parse_gen(""), None);
    assert_eq!(parse_gen(".log"), None);
    assert_eq!(parse_gen("log"), None);
    assert_eq!(parse_gen("01.log"), None);
    assert_eq!(parse_gen("x.log"), None);
    assert_eq!(parse_gen("1.txt"), None);
    assert_eq!(parse_gen("1log"), None);
    assert_eq!(parse_gen("1.log.bak"), None);
    assert_eq!(parse_gen("-1.log"), None);
    // values at and above the cap are not segment names
    assert_eq!(parse_gen("18446744073709551615.log"), None);
    assert_eq!(parse_gen("99999999999999999999.log"), None);
}

#[test]
fn parse_inverts_format() {
    for g in [0u64, 1, 9, 10, 99, 100, 12345, 18446744073709551606] {
        assert_eq!(parse_gen(&log_path(g)), Some(g));
    }
}
