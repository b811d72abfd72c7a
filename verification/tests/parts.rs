use anomaly_scan::config::{
    parallelism_for, ITEM_RANGE_SIZE, MARGIN_AVOID_LINE_BREAK, MIN_PARALLELISM, SPLIT_MARKER,
    STR_U128_LEN,
};
use anomaly_scan::error::ScanError;
use anomaly_scan::parser::parse_number_from_str_buffer;
use anomaly_scan::partition::{get_bounds, get_right_bounds};
use anomaly_scan::scan::{holds_full_window, merge_outcomes, process_segment, scan};
use anomaly_scan::scanner::process;
use anomaly_scan::validator::is_number_valid;
use anomaly_scan::window::{process_next_number, SlidingWindow};

#[test]
fn constants_have_their_values() {
    assert_eq!(MIN_PARALLELISM, 4);
    assert_eq!(ITEM_RANGE_SIZE, 100);
    assert_eq!(MARGIN_AVOID_LINE_BREAK, 2);
    assert_eq!(SPLIT_MARKER, b'\n');
    assert_eq!(STR_U128_LEN, 39);
    assert_eq!(u128::MAX.to_string().len(), STR_U128_LEN);
}

#[test]
fn parallelism_has_a_floor() {
    assert_eq!(parallelism_for(0), 4);
    assert_eq!(parallelism_for(1), 4);
    assert_eq!(parallelism_for(4), 4);
    assert_eq!(parallelism_for(5), 5);
    assert_eq!(parallelism_for(64), 64);
}

#[test]
fn parser_reads_digits() {
    assert_eq!(parse_number_from_str_buffer(b"0"), Ok(0));
    assert_eq!(parse_number_from_str_buffer(b"7"), Ok(7));
    assert_eq!(parse_number_from_str_buffer(b"1203"), Ok(1203));
    assert_eq!(parse_number_from_str_buffer(b"007"), Ok(7));
}

#[test]
fn parser_reads_the_largest_number() {
    assert_eq!(
        parse_number_from_str_buffer(b"340282366920938463463374607431768211455"),
        Ok(u128::MAX)
    );
}

#[test]
fn parser_refuses_a_number_too_large() {
    assert_eq!(
        parse_number_from_str_buffer(b"340282366920938463463374607431768211456"),
        Err(ScanError::MalformedNumber)
    );
    assert_eq!(
        parse_number_from_str_buffer(b"999999999999999999999999999999999999999"),
        Err(ScanError::MalformedNumber)
    );
    assert_eq!(
        parse_number_from_str_buffer(b"3402823669209384634633746074317682114550"),
        Err(ScanError::MalformedNumber)
    );
}

#[test]
fn parser_refuses_an_empty_run() {
    assert_eq!(parse_number_from_str_buffer(b""), Err(ScanError::MalformedNumber));
}

#[test]
fn parser_refuses_what_is_no_digit() {
    assert_eq!(parse_number_from_str_buffer(b"12a3"), Err(ScanError::MalformedNumber));
    assert_eq!(parse_number_from_str_buffer(b"+12"), Err(ScanError::MalformedNumber));
    assert_eq!(parse_number_from_str_buffer(b"-12"), Err(ScanError::MalformedNumber));
    assert_eq!(parse_number_from_str_buffer(b" 12"), Err(ScanError::MalformedNumber));
    assert_eq!(parse_number_from_str_buffer(b"12 "), Err(ScanError::MalformedNumber));
    assert_eq!(parse_number_from_str_buffer(b"1\n2"), Err(ScanError::MalformedNumber));
    assert_eq!(parse_number_from_str_buffer(b"12/"), Err(ScanError::MalformedNumber));
    assert_eq!(parse_number_from_str_buffer(b"12:"), Err(ScanError::MalformedNumber));
}

#[test]
fn validator_needs_two_positions() {
    assert!(!is_number_valid(10, &[]));
    assert!(!is_number_valid(10, &[10]));
    assert!(!is_number_valid(10, &[5]));
    assert!(is_number_valid(10, &[5, 5]));
    assert!(!is_number_valid(0, &[0]));
    assert!(is_number_valid(0, &[0, 0]));
}

#[test]
fn validator_finds_a_pair_anywhere() {
    assert!(is_number_valid(10, &[1, 9]));
    assert!(is_number_valid(10, &[9, 1]));
    assert!(is_number_valid(10, &[20, 3, 30, 7, 40]));
    assert!(is_number_valid(10, &[4, 5, 7, 6]));
    assert!(!is_number_valid(10, &[3, 4]));
    assert!(!is_number_valid(10, &[1, 2, 3, 4, 5]));
    assert!(!is_number_valid(10, &[11, 12, 13]));
}

#[test]
fn validator_stands_the_largest_numbers() {
    assert!(!is_number_valid(u128::MAX, &[u128::MAX, u128::MAX]));
    assert!(is_number_valid(u128::MAX, &[u128::MAX, 0]));
    assert!(is_number_valid(u128::MAX, &[1, u128::MAX - 1]));
    assert!(!is_number_valid(1, &[u128::MAX, 2]));
}

#[test]
fn buffer_fills_and_then_judges() {
    let mut result: Vec<u128> = Vec::new();
    let mut numbers = SlidingWindow::new(2, 6);
    assert_eq!(numbers.len(), 0);
    assert!(!numbers.is_full());
    process_next_number(&mut result, &mut numbers, 5);
    process_next_number(&mut result, &mut numbers, 4);
    assert!(!numbers.is_full());
    process_next_number(&mut result, &mut numbers, 3);
    assert!(numbers.is_full());
    assert_eq!(numbers.len(), 3);
    assert_eq!(numbers.oldest(), 5);
    assert!(!numbers.oldest_is_valid());
    assert!(result.is_empty());
    // 5 leaves and is no sum of {4, 3}.
    process_next_number(&mut result, &mut numbers, 2);
    assert_eq!(result, vec![5]);
    assert_eq!(numbers.len(), 3);
    assert_eq!(numbers.oldest(), 4);
    // 4 leaves and is no sum of {3, 2}.
    process_next_number(&mut result, &mut numbers, 1);
    assert_eq!(result, vec![5, 4]);
    assert_eq!(numbers.oldest(), 3);
    // 3 = 2 + 1 waits at the front.
    assert!(numbers.oldest_is_valid());
    process_next_number(&mut result, &mut numbers, 0);
    assert_eq!(result, vec![5, 4]);
    assert_eq!(numbers.oldest(), 2);
}

#[test]
fn buffer_without_window_judges_every_number() {
    let mut result: Vec<u128> = Vec::new();
    let mut numbers = SlidingWindow::new(0, 2);
    process_next_number(&mut result, &mut numbers, 8);
    assert!(numbers.is_full());
    process_next_number(&mut result, &mut numbers, 9);
    assert_eq!(result, vec![8]);
    assert_eq!(numbers.oldest(), 9);
}

#[test]
fn walk_over_a_whole_text() {
    let buf = b"1\n2\n3\n4\n5\n";
    assert_eq!(process(buf, 0, 8, 2), Ok(vec![5, 4]));
    assert_eq!(process(buf, 0, 8, 1), Ok(vec![5, 4, 3, 2]));
    assert_eq!(process(buf, 0, 8, 4), Ok(vec![]));
    assert_eq!(process(buf, 0, 8, 5), Ok(vec![]));
    assert_eq!(process(buf, 0, 8, 0), Ok(vec![5, 4, 3, 2, 1]));
}

#[test]
fn walk_over_a_part_of_a_text() {
    let buf = b"1\n2\n3\n4\n5\n";
    // The lines 2, 3, 4: only 4 has two numbers before it.
    assert_eq!(process(buf, 2, 6, 2), Ok(vec![4]));
    // The lines 1, 2, 3.
    assert_eq!(process(buf, 0, 4, 2), Ok(vec![]));
    // One line.
    assert_eq!(process(buf, 4, 4, 2), Ok(vec![]));
}

#[test]
fn walk_refuses_an_empty_line() {
    let buf = b"1\n2\n\n4\n5\n";
    assert_eq!(process(buf, 0, 8, 2), Err(ScanError::MalformedNumber));
    // A segment that ends with a separator has an empty last line.
    assert_eq!(process(b"1\n2\n3\n", 0, 5, 2), Err(ScanError::MalformedNumber));
    // So has a segment that begins with one.
    assert_eq!(process(b"1\n2\n3\n", 1, 4, 2), Err(ScanError::MalformedNumber));
    // A segment without bytes is one empty line.
    assert_eq!(process(b"1\n2\n3\n", 2, 1, 2), Err(ScanError::MalformedNumber));
}

#[test]
fn walk_refuses_a_line_longer_than_the_scratch() {
    let mut buf: Vec<u8> = Vec::new();
    buf.extend_from_slice(b"1\n2\n");
    buf.extend_from_slice(&[b'0'; 39]);
    buf.extend_from_slice(b"3\n");
    let last = buf.len() - 2;
    assert_eq!(process(&buf, 0, last, 2), Err(ScanError::MalformedNumber));
}

#[test]
fn walk_takes_a_line_as_long_as_the_scratch() {
    let mut buf: Vec<u8> = Vec::new();
    buf.extend_from_slice(b"1\n2\n");
    buf.extend_from_slice(&[b'0'; 38]);
    buf.extend_from_slice(b"3\n");
    buf.extend_from_slice(b"340282366920938463463374607431768211455\n");
    let last = buf.len() - 2;
    assert_eq!(process(&buf, 0, last, 2), Ok(vec![u128::MAX]));
}

#[test]
fn right_bounds_of_a_split_point() {
    let buf = b"1\n2\n3\n4\n5\n";
    assert_eq!(get_right_bounds(buf, 2, 2), (2, 4));
    assert_eq!(get_right_bounds(buf, 3, 2), (2, 4));
    assert_eq!(get_right_bounds(buf, 4, 2), (4, 6));
    assert_eq!(get_right_bounds(buf, 2, 3), (2, 6));
    assert_eq!(get_right_bounds(buf, 2, 1), (2, 2));
}

#[test]
fn right_bounds_near_the_end() {
    let buf = b"1\n2\n3\n4\n5\n";
    // One separator is left: the second bound falls back to the end.
    assert_eq!(get_right_bounds(buf, 8, 2), (8, 8));
    assert_eq!(get_right_bounds(buf, 9, 2), (8, 8));
    // None is left.
    assert_eq!(get_right_bounds(buf, 10, 2), (8, 8));
    assert_eq!(get_right_bounds(buf, 11, 2), (8, 8));
    // Two are left, five are asked for: the first bound falls back as well.
    assert_eq!(get_right_bounds(buf, 6, 5), (8, 8));
    assert_eq!(get_right_bounds(buf, 2, 5), (8, 8));
    // Four are left and four are asked for.
    assert_eq!(get_right_bounds(buf, 2, 4), (2, 8));
    // The closing byte need not be a separator.
    assert_eq!(get_right_bounds(b"1\n2\n3\n4\n5x", 8, 2), (8, 8));
}

#[test]
fn right_bounds_without_window() {
    let buf = b"1\n2\n3\n4\n5\n";
    assert_eq!(get_right_bounds(buf, 2, 0), (8, 8));
}

#[test]
fn bounds_of_two_segments() {
    let buf = b"1\n2\n3\n4\n5\n";
    // The split point is the separator behind 3: the first walk ends before
    // the second separator from there.
    assert_eq!(get_bounds(buf, 2, 2), vec![(0, 6), (6, 8)]);
    assert_eq!(get_bounds(buf, 2, 1), vec![(0, 4), (6, 8)]);
    assert_eq!(get_bounds(buf, 2, 3), vec![(0, 8), (6, 8)]);
    // Fewer separators are left than the window asks for: the first segment
    // has all the lines.
    assert_eq!(get_bounds(buf, 2, 4), vec![(0, 8), (10, 8)]);
    assert_eq!(get_bounds(buf, 2, usize::MAX), vec![(0, 8), (10, 8)]);
    // Without a window no separator is looked for.
    assert_eq!(get_bounds(buf, 2, 0), vec![(0, 8), (10, 8)]);
}

#[test]
fn bounds_of_one_segment() {
    let buf = b"1\n2\n3\n4\n5\n";
    assert_eq!(get_bounds(buf, 1, 2), vec![(0, 8)]);
    assert_eq!(get_bounds(buf, 1, 100), vec![(0, 8)]);
}

#[test]
fn bounds_of_many_segments() {
    let buf = b"1\n2\n3\n4\n5\n";
    // Shares of two bytes: every split point is the first byte of a line.
    // From the line of 5 on fewer than two separators are left.
    assert_eq!(
        get_bounds(buf, 5, 2),
        vec![(0, 4), (4, 6), (6, 8), (8, 8), (10, 8)]
    );
    // Shares of two bytes, the last split point short of the end.
    assert_eq!(
        get_bounds(b"11\n22\n33\n", 4, 1),
        vec![(0, 1), (3, 4), (6, 7), (9, 7)]
    );
    // Two split points in one line: the second segment holds nothing.
    assert_eq!(
        get_bounds(b"1111\n22\n", 4, 1),
        vec![(0, 3), (5, 3), (5, 6), (8, 6)]
    );
}

#[test]
fn bounds_of_four_hundred_lines() {
    let buf = b"1\n".repeat(400);
    // The split point is byte 400: the first separator from there is byte
    // 401, the hundredth is byte 599.
    assert_eq!(get_bounds(&buf, 2, 100), vec![(0, 598), (402, 798)]);
    assert_eq!(get_right_bounds(&buf, 400, 100), (400, 598));
}

#[test]
fn bounds_of_more_segments_than_bytes() {
    let buf = b"1\n2\n3\n4\n5\n";
    let bounds = get_bounds(buf, 12, 2);
    assert_eq!(bounds.len(), 12);
    assert_eq!(bounds[0], (0, 2));
    for k in 1..12 {
        assert_eq!(bounds[k], (2, 2));
    }
}

#[test]
fn bounds_end_at_the_end_of_the_buffer() {
    let mut text = String::new();
    for n in 0..500 {
        text.push_str(&format!("{}\n", n * 7));
    }
    let buf = text.as_bytes();
    for parallelism in 1..=100usize {
        let bounds = get_bounds(buf, parallelism, 100);
        assert_eq!(bounds.len(), parallelism);
        assert_eq!(bounds[0].0, 0);
        assert_eq!(bounds[parallelism - 1].1, buf.len() - 2);
    }
}

#[test]
fn segment_without_lines_gives_nothing() {
    let buf = b"1\n2\n3\n4\n5\n";
    assert_eq!(process_segment(buf, &(10, 8), 2), Ok(vec![]));
    assert_eq!(process_segment(buf, &(2, 6), 2), Ok(vec![4]));
    assert_eq!(process_segment(buf, &(2, 1), 2), Err(ScanError::MalformedNumber));
}

#[test]
fn outcomes_are_put_together_in_order() {
    let outcomes = vec![Ok(vec![3, 1]), Ok(vec![]), Ok(vec![9])];
    assert_eq!(merge_outcomes(&outcomes), Ok(vec![3, 1, 9]));
    assert_eq!(merge_outcomes(&Vec::new()), Ok(vec![]));
}

#[test]
fn one_failure_fails_the_whole() {
    let outcomes = vec![Ok(vec![3, 1]), Err(ScanError::MalformedNumber), Ok(vec![9])];
    assert_eq!(merge_outcomes(&outcomes), Err(ScanError::MalformedNumber));
    let outcomes = vec![
        Ok(vec![3]),
        Err(ScanError::InputTooShort),
        Err(ScanError::MalformedNumber),
    ];
    assert_eq!(merge_outcomes(&outcomes), Err(ScanError::InputTooShort));
}

#[test]
fn scan_of_many_segments_skips_those_without_lines() {
    let buf = b"1\n2\n3\n4\n5\n";
    // The segments are (0, 4), (4, 6), (6, 8), (8, 8) and (10, 8): three
    // lines, two lines, two lines, one line, none. Only the first judges.
    assert_eq!(scan(buf, 2, 5), Ok(vec![]));
    assert_eq!(scan(buf, 1, 5), Ok(vec![2]));
}

#[test]
fn full_window_is_counted_in_lines() {
    assert!(!holds_full_window(b"", 0));
    assert!(!holds_full_window(b"1", 0));
    assert!(holds_full_window(b"1\n", 0));
    assert!(!holds_full_window(b"1\n", 1));
    assert!(!holds_full_window(b"1\n2\n", 2));
    assert!(holds_full_window(b"1\n2\n3\n", 2));
    assert!(holds_full_window(b"1\n2\n3x", 2));
    assert!(!holds_full_window(b"100000\n200000\n", 2));
    assert!(!holds_full_window(b"1\n2\n3\n", usize::MAX));
}

#[test]
fn short_buffer_is_reported() {
    assert_eq!(scan(b"", 2, 1), Err(ScanError::InputTooShort));
    assert_eq!(scan(b"1", 0, 1), Err(ScanError::InputTooShort));
    assert_eq!(scan(b"1\n2\n", 2, 1), Err(ScanError::InputTooShort));
    assert_eq!(scan(b"100000\n200000\n", 2, 1), Err(ScanError::InputTooShort));
    assert_eq!(scan(b"1\n2\n3\n", 2, 1), Ok(vec![]));
    assert_eq!(scan(b"1\n2\n3\n4\n5\n", 5, 1), Err(ScanError::InputTooShort));
    assert_eq!(scan(b"1\n2\n3\n4\n5\n", 4, 1), Ok(vec![]));
    assert_eq!(scan(b"1\n2\n3\n4\n5\n", usize::MAX, 1), Err(ScanError::InputTooShort));
}

#[test]
fn short_buffer_is_reported_before_its_lines_are_read() {
    assert_eq!(scan(b"1\nx\n", 2, 1), Err(ScanError::InputTooShort));
}

#[test]
fn scan_without_window_reports_every_number() {
    assert_eq!(scan(b"7\n", 0, 1), Ok(vec![7]));
    assert_eq!(scan(b"1\n2\n3\n", 0, 1), Ok(vec![3, 2, 1]));
    // Without a window the first segment has all the lines.
    assert_eq!(scan(b"1\n2\n3\n", 0, 3), Ok(vec![3, 2, 1]));
}
