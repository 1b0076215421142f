use goldbach::parse::{parse_u64, primes_from_lines, DataError};

fn lines_of(texts: &[&str]) -> Vec<Vec<u8>> {
    texts.iter().map(|t| t.as_bytes().to_vec()).collect()
}

#[test]
fn test_load_primes() {
    let primes = primes_from_lines(&lines_of(&["2", "3", "5", "7"])).unwrap();
    assert!(primes.contains(2), "Failed to find prime 2");
    assert!(primes.contains(3), "Failed to find prime 3");
    assert!(primes.contains(5), "Failed to find prime 5");
    assert!(primes.contains(7), "Failed to find prime 7");
}

#[test]
fn test_load_primes_invalid() {
    let primes = primes_from_lines(&lines_of(&["2", "three", "5"]));
    assert!(
        primes.is_err(),
        "Returned primes from invalid file should be an error"
    );
}

#[test]
fn test_load_primes_reports_first_bad_line() {
    match primes_from_lines(&lines_of(&["2", "x", "", "5"])) {
        Err(e) => assert_eq!(e, DataError::InvalidLine(1)),
        Ok(_) => panic!("a non-numeric line must fail the whole load"),
    }
    match primes_from_lines(&lines_of(&["2", "3", ""])) {
        Err(e) => assert_eq!(e, DataError::InvalidLine(2)),
        Ok(_) => panic!("a blank line must fail the whole load"),
    }
}

#[test]
fn test_load_primes_deduplicates() {
    let primes = primes_from_lines(&lines_of(&["7", "7", "2", "7"])).unwrap();
    assert_eq!(primes.to_vec(), vec![2, 7]);
}

#[test]
fn test_parse_u64_accepts_digits() {
    assert_eq!(parse_u64(&b"0".to_vec()), Some(0));
    assert_eq!(parse_u64(&b"42".to_vec()), Some(42));
    assert_eq!(parse_u64(&b"007".to_vec()), Some(7));
    assert_eq!(
        parse_u64(&b"18446744073709551615".to_vec()),
        Some(u64::MAX)
    );
}

#[test]
fn test_parse_u64_rejects_bad_content() {
    assert_eq!(parse_u64(&b"".to_vec()), None);
    assert_eq!(parse_u64(&b"12a3".to_vec()), None);
    assert_eq!(parse_u64(&b"-5".to_vec()), None);
    assert_eq!(parse_u64(&b" 5".to_vec()), None);
    // One past u64::MAX must overflow, not wrap.
    assert_eq!(parse_u64(&b"18446744073709551616".to_vec()), None);
}
