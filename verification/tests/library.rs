use klinepack::appender::write_to_file;
use klinepack::codec::{encode_entries, read_binary_file};
use klinepack::decode::{get_vector, DecodeError};
use klinepack::entry::SolanaPriceEntry;
use klinepack::listing::{filename, sort_files_ci};
use klinepack::normalize::{normalize_record, parse_u32, standardize_price, standardize_time, ParseFieldError};
use klinepack::sample::sample_views;

fn entry(time: u32, close_price: u32) -> SolanaPriceEntry {
    SolanaPriceEntry { time, close_price }
}

fn row(fields: &[&str]) -> Vec<String> {
    fields.iter().map(|f| f.to_string()).collect()
}

#[test]
fn timestamp_13_chars_is_milliseconds() {
    assert_eq!(standardize_time("1609459200000").unwrap(), 1609459200);
}

#[test]
fn timestamp_other_length_is_microseconds() {
    assert_eq!(standardize_time("1609459200000000").unwrap(), 1609459200);
    // 14 characters: not the millisecond shape, so six digits are dropped.
    assert_eq!(standardize_time("16094592000000").unwrap(), 16094592);
    // 10 characters: also six digits dropped.
    assert_eq!(standardize_time("1609459200").unwrap(), 1609);
}

#[test]
fn timestamp_bad_digits_reports_truncated_text() {
    match standardize_time("1609x59200000") {
        Err(ParseFieldError::Timestamp { text }) => assert_eq!(text, "1609x59200"),
        other => panic!("expected a timestamp error, got {:?}", other),
    }
}

#[test]
fn timestamp_too_short_is_an_error() {
    match standardize_time("12345") {
        Err(ParseFieldError::Timestamp { text }) => assert_eq!(text, "12345"),
        other => panic!("expected a timestamp error, got {:?}", other),
    }
    // Exactly six characters leave an empty string to parse, which fails.
    match standardize_time("123456") {
        Err(ParseFieldError::Timestamp { text }) => assert_eq!(text, ""),
        other => panic!("expected a timestamp error, got {:?}", other),
    }
}

#[test]
fn price_truncates_beyond_third_fractional_digit() {
    assert_eq!(standardize_price("1.2345").unwrap(), 1234);
    assert_eq!(standardize_price("72.9999").unwrap(), 72999);
    assert_eq!(standardize_price("0.001").unwrap(), 1);
}

#[test]
fn price_short_fraction_is_used_as_is() {
    // Fewer than three fractional digits: no padding is applied.
    assert_eq!(standardize_price("3.5").unwrap(), 35);
    assert_eq!(standardize_price("3.52").unwrap(), 352);
    assert_eq!(standardize_price("2.").unwrap(), 2);
}

#[test]
fn price_without_decimal_point_has_empty_fraction() {
    assert_eq!(standardize_price("5").unwrap(), 5);
    assert_eq!(standardize_price("120").unwrap(), 120);
}

#[test]
fn price_bad_digits_reports_combined_text() {
    match standardize_price("12a.5") {
        Err(ParseFieldError::Price { text }) => assert_eq!(text, "12a5"),
        other => panic!("expected a price error, got {:?}", other),
    }
    assert!(standardize_price("").is_err());
}

#[test]
fn parse_u32_rejects_empty_and_overflow() {
    assert_eq!(parse_u32("4294967295"), Some(u32::MAX));
    assert_eq!(parse_u32("4294967296"), None);
    assert_eq!(parse_u32(""), None);
    assert_eq!(parse_u32("+17"), Some(17));
    assert_eq!(parse_u32("+"), None);
}

#[test]
fn record_example_millisecond_row() {
    let r = row(&["1609459200000", "x", "x", "x", "1.234"]);
    assert_eq!(normalize_record(&r).unwrap(), Some(entry(1609459200, 1234)));
}

#[test]
fn record_example_microsecond_row() {
    let r = row(&["1609459200000000", "x", "x", "x", "5"]);
    assert_eq!(normalize_record(&r).unwrap(), Some(entry(1609459200, 5)));
}

#[test]
fn record_missing_price_field_is_skipped() {
    let r = row(&["1609459200000", "x", "x", "x"]);
    assert_eq!(normalize_record(&r).unwrap(), None);
    let empty = row(&[]);
    assert_eq!(normalize_record(&empty).unwrap(), None);
}

#[test]
fn record_timestamp_error_takes_precedence() {
    let r = row(&["bad timestamp", "x", "x", "x", "also bad"]);
    match normalize_record(&r) {
        Err(ParseFieldError::Timestamp { text }) => assert_eq!(text, "bad timest"),
        other => panic!("expected a timestamp error, got {:?}", other),
    }
}

#[test]
fn encode_then_read_back_round_trips() {
    let entries = vec![entry(100, 1), entry(200, 2), entry(4294967295, 4294967295)];
    let image = encode_entries(&entries);
    assert_eq!(image.len(), 24);
    let pairs = read_binary_file(&image);
    assert_eq!(pairs, vec![(100, 1), (200, 2), (4294967295, 4294967295)]);
}

#[test]
fn read_back_drops_trailing_partial_record() {
    let entries = vec![entry(7, 9)];
    let mut image = encode_entries(&entries);
    image.extend_from_slice(&[1, 2, 3]);
    assert_eq!(read_binary_file(&image), vec![(7, 9)]);
}

#[test]
fn read_back_little_endian_layout() {
    let image = vec![0x00, 0xE1, 0xF5, 0x05, 0xD2, 0x04, 0x00, 0x00];
    // 0x05F5E100 = 100000000, 0x000004D2 = 1234.
    assert_eq!(read_binary_file(&image), vec![(100000000, 1234)]);
}

#[test]
fn append_to_empty_file_writes_every_entry() {
    let mut file: Vec<u8> = Vec::new();
    let batch = vec![entry(100, 1), entry(50, 2)];
    write_to_file(&mut file, &batch).unwrap();
    assert_eq!(read_binary_file(&file), vec![(100, 1), (50, 2)]);
}

#[test]
fn append_in_order_extends_the_file() {
    let mut file: Vec<u8> = Vec::new();
    write_to_file(&mut file, &vec![entry(100, 1)]).unwrap();
    write_to_file(&mut file, &vec![entry(100, 2), entry(30, 3)]).unwrap();
    write_to_file(&mut file, &vec![entry(150, 4)]).unwrap();
    assert_eq!(read_binary_file(&file), vec![(100, 1), (100, 2), (30, 3), (150, 4)]);
}

#[test]
fn append_out_of_order_fails_and_leaves_file_unchanged() {
    let mut file: Vec<u8> = Vec::new();
    write_to_file(&mut file, &vec![entry(1609459200, 1)]).unwrap();
    let before = file.clone();
    let err = write_to_file(&mut file, &vec![entry(1609459199, 2)]).unwrap_err();
    assert_eq!(file, before);
    assert_eq!(err.file_start, 1609459200);
    assert_eq!(err.batch_start, 1609459199);
    assert_eq!(err.file_start_utc, "2021-01-01 00:00:00 UTC");
    assert_eq!(err.batch_start_utc, "2020-12-31 23:59:59 UTC");
}

#[test]
fn append_skips_check_on_short_existing_file() {
    // Fewer than eight existing bytes: no first record to validate against.
    let mut file: Vec<u8> = vec![0xFF, 0xFF, 0xFF, 0xFF];
    write_to_file(&mut file, &vec![entry(1, 1)]).unwrap();
    assert_eq!(file.len(), 12);
}

#[test]
fn append_empty_batch_is_accepted() {
    let mut file: Vec<u8> = Vec::new();
    write_to_file(&mut file, &vec![entry(100, 1)]).unwrap();
    let before = file.clone();
    write_to_file(&mut file, &Vec::new()).unwrap();
    assert_eq!(file, before);
}

#[test]
fn decode_csv_with_header_in_row_order() {
    let data = b"open_time,open,high,low,close\n\
                 1609459200000,a,b,c,1.234\n\
                 1609459260000000,a,b,c,5\n";
    let entries = get_vector(data).unwrap();
    assert_eq!(entries, vec![entry(1609459200, 1234), entry(1609459260, 5)]);
}

#[test]
fn decode_csv_missing_field_produces_zero_entries() {
    let data = b"open_time,open,high,low\n1609459200000,a,b,c\n";
    let entries = get_vector(data).unwrap();
    assert_eq!(entries, vec![]);
}

#[test]
fn decode_csv_bad_field_fails_whole_file() {
    let data = b"t,o,h,l,c\n1609459200000,a,b,c,bad\n1609459260000,a,b,c,1.0\n";
    match get_vector(data) {
        Err(DecodeError::Field { error: ParseFieldError::Price { text } }) => {
            assert_eq!(text, "bad")
        },
        other => panic!("expected a price field error, got {:?}", other),
    }
}

#[test]
fn decode_malformed_csv_is_a_structural_error() {
    let data = b"t,o,h,l,c\n1609459200000,a\n";
    match get_vector(data) {
        Err(DecodeError::Csv { .. }) => {},
        other => panic!("expected a structural error, got {:?}", other),
    }
}

#[test]
fn listing_sorts_case_insensitively() {
    let files = vec!["B.csv".to_string(), "a.csv".to_string(), "C.csv".to_string()];
    let sorted = sort_files_ci(&files);
    assert_eq!(sorted, vec!["a.csv".to_string(), "B.csv".to_string(), "C.csv".to_string()]);
}

#[test]
fn listing_sorts_full_paths() {
    let files = vec![
        "dir/2021-02.csv".to_string(),
        "dir/2021-01.csv".to_string(),
        "Dir/2020-12.csv".to_string(),
    ];
    let sorted = sort_files_ci(&files);
    assert_eq!(
        sorted,
        vec![
            "Dir/2020-12.csv".to_string(),
            "dir/2021-01.csv".to_string(),
            "dir/2021-02.csv".to_string(),
        ]
    );
}

#[test]
fn listing_keeps_duplicates_under_equal_keys() {
    let files = vec!["A.csv".to_string(), "a.csv".to_string(), "A.csv".to_string()];
    let sorted = sort_files_ci(&files);
    assert_eq!(sorted.len(), 3);
    let uppers = sorted.iter().filter(|s| s.as_str() == "A.csv").count();
    let lowers = sorted.iter().filter(|s| s.as_str() == "a.csv").count();
    assert_eq!(uppers, 2);
    assert_eq!(lowers, 1);
}

#[test]
fn filename_takes_last_path_component() {
    assert_eq!(filename("a/b/c.csv"), "c.csv");
    assert_eq!(filename("plain.csv"), "plain.csv");
    assert_eq!(filename("dir/"), "");
    assert_eq!(filename(""), "");
}

#[test]
fn sample_views_of_long_series() {
    let entries: Vec<(u32, u32)> = (0..120).map(|i| (i as u32, (i * 2) as u32)).collect();
    let views = sample_views(&entries);
    assert_eq!(views.first.len(), 50);
    assert_eq!(views.first[0], (0, 0));
    assert_eq!(views.first[49], (49, 98));
    assert_eq!(views.middle.len(), 50);
    assert_eq!(views.middle[0], (60, 120));
    assert_eq!(views.middle[49], (109, 218));
    assert_eq!(views.last_rev.len(), 50);
    assert_eq!(views.last_rev[0], (119, 238));
    assert_eq!(views.last_rev[49], (70, 140));
}

#[test]
fn sample_views_of_short_series() {
    let entries: Vec<(u32, u32)> = vec![(1, 10), (2, 20), (3, 30)];
    let views = sample_views(&entries);
    assert_eq!(views.first, vec![(1, 10), (2, 20), (3, 30)]);
    assert_eq!(views.middle, vec![(2, 20), (3, 30)]);
    assert_eq!(views.last_rev, vec![(3, 30), (2, 20), (1, 10)]);
}
