use par2_rs::paths::{is_data_extension, is_par2_extension};
use par2_rs::sizes::parse_size;
use par2_rs::text::{decimal, padded};
use par2_rs::Par2Error;

#[test]
fn sizes_are_numbers_with_suffixes() {
    assert_eq!(parse_size("2048"), Some((2048, 1)));
    assert_eq!(parse_size("+7"), Some((7, 1)));
    assert_eq!(parse_size("512K"), Some((512, 1024)));
    assert_eq!(parse_size("2m"), Some((2, 1048576)));
    assert_eq!(parse_size("1G"), Some((1, 1073741824)));
    assert_eq!(parse_size("18446744073709551615"), Some((u64::MAX, 1)));
    assert_eq!(parse_size("18446744073709551616"), None);
    assert_eq!(parse_size(""), None);
    assert_eq!(parse_size("K"), None);
    assert_eq!(parse_size("-1"), None);
    assert_eq!(parse_size("1T"), None);
    assert_eq!(parse_size("1.5M"), None);
}

#[test]
fn numbers_are_written_in_decimal() {
    assert_eq!(decimal(0), "0");
    assert_eq!(decimal(1234567890), "1234567890");
    assert_eq!(decimal(u64::MAX), "18446744073709551615");
    assert_eq!(padded(7, 3), "007");
    assert_eq!(padded(1234, 3), "1234");
}

#[test]
fn errors_have_messages() {
    let m = |e: Par2Error| e.message();
    assert_eq!(m(Par2Error::NotFound), "PAR2 file not found");
    assert_eq!(m(Par2Error::ParseError("x".to_string())), "PAR2 parsing failed: x");
    assert_eq!(m(Par2Error::VerificationFailed("x".to_string())), "File verification failed: x");
    assert_eq!(
        m(Par2Error::InsufficientRecovery { needed: 5, available: 2 }),
        "Insufficient recovery blocks: need 5, have 2"
    );
    assert_eq!(
        m(Par2Error::SizeMismatch { file: "f".to_string(), expected: 1, actual: 20 }),
        "File size mismatch for f: expected 1, got 20"
    );
    assert_eq!(m(Par2Error::HashMismatch("f".to_string())), "Hash mismatch for file f");
    assert_eq!(m(Par2Error::Cancelled), "Operation cancelled");
}

#[test]
fn extensions_tell_par2_files() {
    for spelling in ["par2", "PAR2", "Par2", "pAR2"] {
        assert!(is_par2_extension(spelling));
    }
    for other in ["par", "par22", "tar2", "pa\u{158}2", ""] {
        assert!(!is_par2_extension(other));
    }
    assert!(!is_data_extension(Some("par2")));
    assert!(is_data_extension(Some("PAR2")));
    assert!(is_data_extension(Some("txt")));
    assert!(is_data_extension(None));
}
