use heap_locator::basics::{
    factorize, gauss, in_range, longest_sequence, rotate, subset, substr, to_decimal,
};

#[test]
fn gauss_sums() {
    assert_eq!(gauss(10), 55);
    assert_eq!(gauss(1), 1);
    assert_eq!(gauss(0), 0);
    assert_eq!(gauss(-4), -1);
    assert_eq!(gauss(65535), 2147450880);
}

#[test]
fn in_range_counts() {
    assert_eq!(in_range(&[1, 2, 3, 4, 5], 2, 4), 3);
    assert_eq!(in_range(&[], 0, 10), 0);
    assert_eq!(in_range(&[-5, 0, 5, 10, 11], 0, 10), 3);
    assert_eq!(in_range(&[3, 3, 3], 4, 2), 0);
}

#[test]
fn subset_checks() {
    assert!(subset(&[1, 2, 3, 4, 5], &[1, 3, 2]));
    assert!(!subset(&[1, 2, 3], &[2, 6]));
    assert!(subset::<i32>(&[1, 2], &[]));
    assert!(subset(&["a", "b"], &["b", "b"]));
}

#[test]
fn to_decimal_converts() {
    assert_eq!(to_decimal(&[1, 0, 1, 0]), 10);
    assert_eq!(to_decimal(&[]), 0);
    assert_eq!(to_decimal(&[1, 1, 1, 1, 1, 1, 1, 1]), 255);
}

#[test]
fn factorize_splits_into_primes() {
    assert_eq!(factorize(36), vec![2, 2, 3, 3]);
    assert_eq!(factorize(2), vec![2]);
    assert_eq!(factorize(97), vec![97]);
    assert_eq!(factorize(1024), vec![2; 10]);
    assert_eq!(factorize(2 * 3 * 5 * 7 * 11 * 13), vec![2, 3, 5, 7, 11, 13]);
}

#[test]
fn rotate_moves_first_to_end() {
    assert_eq!(rotate(&[1, 2, 3, 4]), vec![2, 3, 4, 1]);
    assert_eq!(rotate(&[7]), vec![7]);
    assert_eq!(rotate(&[]), Vec::<i32>::new());
}

#[test]
fn substr_finds_pieces() {
    let s = "rustacean".to_string();
    assert!(substr(&s, "ace"));
    assert!(substr(&s, ""));
    assert!(substr(&s, "rustacean"));
    assert!(!substr(&s, "rustaceans"));
    assert!(!substr(&s, "xyz"));
    assert!(substr(&s, "an"));
}

#[test]
fn longest_sequence_finds_first_longest_run() {
    assert_eq!(longest_sequence("ababbba"), Some("bbb"));
    assert_eq!(longest_sequence("aaabbb"), Some("aaa"));
    assert_eq!(longest_sequence("xyz"), Some("x"));
    assert_eq!(longest_sequence(""), None);
    assert_eq!(longest_sequence("abccc"), Some("ccc"));
}
