use fortunate_primes::range_search::parse_oracle_output;
use fortunate_primes::search_range;

#[test]
fn test_search_range_finds_prime() {
    // primorial(5) = 2310 and 2310 + 23 = 2333 is prime
    let result = search_range(5, 2, 50).unwrap();
    assert_eq!(result, Some(23));
}

#[test]
fn test_search_range_no_prime_in_range() {
    let result = search_range(5, 2, 10).unwrap();
    assert_eq!(result, None);
}

#[test]
fn test_search_range_exact_match() {
    let result = search_range(5, 23, 23).unwrap();
    assert_eq!(result, Some(23));
}

#[test]
fn test_f10_equals_61() {
    let result = search_range(10, 2, 100).unwrap();
    assert_eq!(result, Some(61));
}

#[test]
fn test_range_starting_at_1_skips_to_2() {
    let result = search_range(5, 1, 50).unwrap();
    assert_eq!(result, Some(23));
}

#[test]
fn search_range_empty_range_has_no_hit() {
    assert_eq!(search_range(5, 30, 29).unwrap(), None);
    assert_eq!(search_range(5, 0, 1).unwrap(), None);
}

#[test]
fn search_range_index_zero_uses_one() {
    // primorial(0) = 1 and 1 + 2 = 3 is prime
    assert_eq!(search_range(0, 0, 10).unwrap(), Some(2));
}

#[test]
fn search_range_f20_is_103() {
    assert_eq!(search_range(20, 2, 200).unwrap(), Some(103));
}

#[test]
fn oracle_output_is_read_as_one_integer() {
    use_parse(b"", Ok(None));
    use_parse(b" \n\t\r\n", Ok(None));
    use_parse(b"23\n", Ok(Some(23)));
    use_parse(b"  61 \r\n", Ok(Some(61)));
    use_parse(b"+5", Ok(Some(5)));
    use_parse(b"18446744073709551615", Ok(Some(u64::MAX)));
    use_parse(b"18446744073709551616", Err(()));
    use_parse(b"abc", Err(()));
    use_parse(b"+", Err(()));
    use_parse(b"1 2", Err(()));
    use_parse(b"-3", Err(()));
}

fn use_parse(bytes: &[u8], expected: Result<Option<u64>, ()>) {
    let got = parse_oracle_output(&bytes.to_vec()).map_err(|_| ());
    assert_eq!(got, expected, "reading {:?}", String::from_utf8_lossy(bytes));
}
