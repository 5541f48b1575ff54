use alkaidsd::instance_file::{parse_instance, parse_int, split_lines, split_tokens, InstanceFileError};

#[test]
fn reads_a_small_instance() {
    let text = b"2 10\n3 4\n0 0\n3 4\n6 8\n";
    let file = parse_instance(text).ok().unwrap();
    assert_eq!(file.num_customers, 3);
    assert_eq!(file.capacity, 10);
    assert_eq!(file.demands, vec![0, 3, 4]);
    assert_eq!(file.coords, vec![(0, 0), (3, 4), (6, 8)]);
}

#[test]
fn reads_crlf_lines_and_skips_bad_tokens() {
    let text = b"3 7\r\n1 x +2 99999999999\r\n\r\n1 2 extra\r\nonly\r\n-5 q\r\n";
    let file = parse_instance(text).ok().unwrap();
    assert_eq!(file.num_customers, 4);
    assert_eq!(file.demands, vec![0, 1, 2, 0]);
    assert_eq!(file.coords, vec![(1, 2), (-5, 0), (0, 0), (0, 0)]);
}

#[test]
fn keeps_only_as_many_points_as_nodes() {
    let text = b"1 5\n2 9 9\n1 1\n2 2\n3 3\n";
    let file = parse_instance(text).ok().unwrap();
    assert_eq!(file.num_customers, 2);
    assert_eq!(file.demands, vec![0, 2, 9, 9]);
    assert_eq!(file.coords, vec![(1, 1), (2, 2)]);
}

#[test]
fn reports_each_error() {
    assert!(matches!(parse_instance(b""), Err(InstanceFileError::Empty)));
    assert!(matches!(parse_instance(b"5\n1\n"), Err(InstanceFileError::ShortHeader)));
    assert!(matches!(parse_instance(b"a 5\n1\n"), Err(InstanceFileError::BadNumCustomers)));
    assert!(matches!(parse_instance(b"-1 5\n1\n"), Err(InstanceFileError::BadNumCustomers)));
    assert!(matches!(parse_instance(b"2 5x\n1\n"), Err(InstanceFileError::BadCapacity)));
    assert!(matches!(parse_instance(b"2 5\n"), Err(InstanceFileError::MissingDemands)));
}

#[test]
fn splits_lines_and_tokens() {
    let lines = split_lines(b"a b\n\nc");
    assert_eq!(lines, vec![b"a b".to_vec(), b"".to_vec(), b"c".to_vec()]);
    let tokens = split_tokens(b"  12\t-3  x ");
    assert_eq!(tokens, vec![b"12".to_vec(), b"-3".to_vec(), b"x".to_vec()]);
}

#[test]
fn parses_integers_like_std() {
    assert_eq!(parse_int(b"+17", -100, 100), Some(17));
    assert_eq!(parse_int(b"-0042", -100, 100), Some(-42));
    assert_eq!(parse_int(b"101", -100, 100), None);
    assert_eq!(parse_int(b"-", -100, 100), None);
    assert_eq!(parse_int(b"1-", -100, 100), None);
    assert_eq!(parse_int(b"2147483647", i32::MIN as i64, i32::MAX as i64), Some(2147483647));
    assert_eq!(parse_int(b"2147483648", i32::MIN as i64, i32::MAX as i64), None);
    assert_eq!(parse_int(b"-2147483648", i32::MIN as i64, i32::MAX as i64), Some(-2147483648));
}
