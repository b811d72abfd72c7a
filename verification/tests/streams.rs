use anomaly_scan::error::ScanError;
use anomaly_scan::scan::scan;
use anomaly_scan::validator::is_number_valid;

fn padded_lines(numbers: &[u128]) -> Vec<u8> {
    let mut text = String::new();
    for number in numbers {
        text.push_str(&format!("{:04}\n", number));
    }
    text.into_bytes()
}

fn sorted(mut numbers: Vec<u128>) -> Vec<u128> {
    numbers.sort();
    numbers
}

#[test]
fn five_numbers_with_window_two() {
    // 3 = 1 + 2 is regular; 4 is no sum of {2, 3}; 5 is no sum of {3, 4}.
    let found = scan(b"1\n2\n3\n4\n5\n", 2, 1);
    assert_eq!(found, Ok(vec![5, 4]));
}

#[test]
fn windows_of_the_five_numbers() {
    assert!(is_number_valid(3, &[1, 2]));
    assert!(!is_number_valid(4, &[2, 3]));
    assert!(!is_number_valid(5, &[3, 4]));
}

#[test]
fn zero_and_target_make_a_pair() {
    assert!(is_number_valid(7, &[0, 7]));
    assert!(is_number_valid(7, &[3, 7, 9, 0]));
}

#[test]
fn malformed_line_aborts_the_scan() {
    let found = scan(b"1\n2\n12a3\n4\n5\n", 2, 1);
    assert_eq!(found, Err(ScanError::MalformedNumber));
}

#[test]
fn malformed_line_aborts_the_scan_in_segments() {
    let found = scan(b"1\n2\n12a3\n4\n5\n6\n", 2, 2);
    assert_eq!(found, Err(ScanError::MalformedNumber));
}

#[test]
fn one_segment_and_four_segments_find_the_same() {
    let numbers: [u128; 16] =
        [1, 2, 3, 5, 8, 100, 108, 208, 316, 524, 840, 1364, 2205, 3569, 5774, 9343];
    let buf = padded_lines(&numbers);
    assert_eq!(buf.len(), 80);
    let single = scan(&buf, 2, 1).unwrap();
    let multi = scan(&buf, 2, 4).unwrap();
    assert_eq!(single, vec![2205, 100]);
    assert_eq!(multi, vec![100, 2205]);
    assert_eq!(sorted(single), sorted(multi));
}

#[test]
fn scanning_twice_finds_the_same() {
    let numbers: [u128; 16] =
        [1, 2, 3, 5, 8, 100, 108, 208, 316, 524, 840, 1364, 2205, 3569, 5774, 9343];
    let buf = padded_lines(&numbers);
    let first = scan(&buf, 2, 4);
    let second = scan(&buf, 2, 4);
    assert_eq!(first, second);
}

#[test]
fn number_between_two_segments_is_judged_by_no_walk() {
    // The second segment begins with the line of 4. The walk over the first
    // ends with that line, and the walk over the second judges nothing before
    // its third number: 5 is judged by neither.
    assert_eq!(scan(b"1\n2\n3\n4\n5\n", 2, 2), Ok(vec![4]));
}

#[test]
fn eight_numbers_in_two_segments() {
    let buf = b"1\n2\n3\n4\n5\n6\n7\n8\n";
    assert_eq!(scan(buf, 2, 1), Ok(vec![8, 7, 6, 5, 4]));
    // The first walk reads the lines of 1 to 6, the second those of 6 to 8:
    // 7 stands at place 1 of the second segment.
    assert_eq!(scan(buf, 2, 2), Ok(vec![6, 5, 4, 8]));
}

#[test]
fn few_segments_need_no_whole_shares() {
    let buf = b"01\n2\n3\n5\n8\n100\n108\n208\n316\n";
    assert_eq!(buf.len() % 2, 1);
    // The second segment begins with the line of 108; 208 stands between
    // the segments and is the sum of 100 and 108.
    assert_eq!(scan(buf, 2, 1), Ok(vec![100]));
    assert_eq!(scan(buf, 2, 2), Ok(vec![100]));
}

#[test]
fn every_number_of_a_regular_stream_passes() {
    let numbers: [u128; 12] = [1, 2, 3, 5, 8, 13, 21, 34, 55, 89, 144, 233];
    let buf = padded_lines(&numbers);
    assert_eq!(scan(&buf, 2, 1), Ok(vec![]));
    assert_eq!(scan(&buf, 2, 3), Ok(vec![]));
}

#[test]
fn last_byte_must_close_the_last_line() {
    assert_eq!(scan(b"1\n2\n3\n4\n5\n", 2, 1), Ok(vec![5, 4]));
    // A last line that no separator closes is malformed.
    assert_eq!(scan(b"1\n2\n3\n4\n5x", 2, 1), Err(ScanError::MalformedNumber));
    assert_eq!(scan(b"1\n2\n3\n4\n5", 2, 1), Err(ScanError::MalformedNumber));
    assert_eq!(scan(b"1\n2\n3\n4\n55", 2, 2), Err(ScanError::MalformedNumber));
    // A separator before the closing byte leaves an empty last line.
    assert_eq!(scan(b"1\n2\n3\n4\n5\n\n", 2, 1), Err(ScanError::MalformedNumber));
}

#[test]
fn empty_first_line_aborts_the_scan() {
    assert_eq!(scan(b"\n1\n2\n3\n4\n", 2, 1), Err(ScanError::MalformedNumber));
    assert_eq!(scan(b"\n1\n2\n3\n4\n", 2, 2), Err(ScanError::MalformedNumber));
}

#[test]
fn same_number_is_reported_as_often_as_it_is_an_anomaly() {
    // 50 is no sum of {1, 2}; 52 = 2 + 50; 50 is no sum of {50, 52}.
    let found = scan(b"1\n2\n50\n52\n50\n", 2, 1);
    assert_eq!(found, Ok(vec![50, 50]));
}
