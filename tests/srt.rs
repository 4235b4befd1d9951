use blowup::sub::{OverlapFixMode, SrtError, SrtFile, SrtTime, SubtitleEntry};

const SEC: i64 = 1000;
const MIN: i64 = 60 * SEC;
const HOUR: i64 = 60 * MIN;

fn create_entry(beg_s: i64, end_s: i64) -> SubtitleEntry {
    SubtitleEntry::new(1, SrtTime::new(beg_s * SEC, end_s * SEC), "".to_string())
}

fn file_of(entries: Vec<SubtitleEntry>) -> SrtFile {
    SrtFile::new(entries)
}

#[test]
fn test_to_entry_str() {
    let entry = create_entry(100, 200);
    let cells = entry.to_entry_str();
    println!("entry is {:?}", cells);
    assert_eq!(cells, vec!["1", "00:01:40,000 --> 00:03:20,000", ""]);
}

#[test]
fn test_adjust_timestamps_positive() {
    let mut srt_file = file_of(vec![create_entry(10, 15), create_entry(20, 25)]);

    let result = srt_file.adjust_timestamps(3000, OverlapFixMode::Before);
    assert!(result.is_ok());

    let expected_entries = vec![create_entry(13, 18), create_entry(23, 28)];
    assert_eq!(srt_file.entries(), &expected_entries);
}

#[test]
fn test_adjust_timestamps_negative() {
    let mut srt_file = file_of(vec![create_entry(10, 15), create_entry(20, 25)]);

    let result = srt_file.adjust_timestamps(-5000, OverlapFixMode::Before);
    assert!(result.is_ok());

    let expected_entries = vec![create_entry(5, 10), create_entry(15, 20)];
    assert_eq!(srt_file.entries(), &expected_entries);
}

#[test]
fn test_adjust_timestamps_negative_clamping() {
    let mut srt_file = file_of(vec![create_entry(2, 5), create_entry(10, 15)]);

    let result = srt_file.adjust_timestamps(-5000, OverlapFixMode::Before);
    assert!(result.is_ok());

    let expected_entries = vec![create_entry(2, 5), create_entry(5, 10)];
    assert_eq!(srt_file.entries(), &expected_entries);
}

#[test]
fn test_adjust_timestamps_overflow() {
    let mut srt_file = file_of(vec![create_entry(359999, 360000)]);

    let result = srt_file.adjust_timestamps(1000, OverlapFixMode::Before);
    assert!(result.is_err());
    assert!(matches!(result.unwrap_err(), SrtError::InvalidTsError));
}

#[test]
fn test_no_overlap_fix() {
    let mut srt_file = file_of(vec![create_entry(0, 5), create_entry(5, 10), create_entry(11, 15)]);
    let entries_before = srt_file.entries().clone();

    let result = srt_file.fix_ts_overlap(OverlapFixMode::After);
    assert!(result.is_ok());
    assert_eq!(srt_file.entries(), &entries_before);
}

#[test]
fn test_fix_after_mode() {
    let mut srt_file = file_of(vec![create_entry(0, 5), create_entry(4, 10), create_entry(9, 15)]);

    let result = srt_file.fix_ts_overlap(OverlapFixMode::After);
    assert!(result.is_ok());

    let expected_entries = vec![create_entry(0, 4), create_entry(4, 9), create_entry(9, 15)];
    assert_eq!(srt_file.entries(), &expected_entries);
}

#[test]
fn test_fix_before_mode() {
    let mut srt_file = file_of(vec![create_entry(0, 5), create_entry(4, 10), create_entry(9, 15)]);

    let result = srt_file.fix_ts_overlap(OverlapFixMode::Before);
    assert!(result.is_ok());

    let expected_entries = vec![create_entry(0, 5), create_entry(5, 10), create_entry(10, 15)];
    assert_eq!(srt_file.entries(), &expected_entries);
}

#[test]
fn test_zero_duration_is_valid() {
    let mut srt_file = file_of(vec![create_entry(5, 10), create_entry(5, 10)]);

    let result = srt_file.fix_ts_overlap(OverlapFixMode::After);
    assert!(result.is_ok());

    let expected_entries = vec![create_entry(5, 5), create_entry(5, 10)];
    assert_eq!(srt_file.entries(), &expected_entries);

    let mut srt_file = file_of(vec![create_entry(5, 10), create_entry(5, 10)]);

    let result = srt_file.fix_ts_overlap(OverlapFixMode::Before);
    assert!(result.is_ok());

    let expected_entries = vec![create_entry(5, 10), create_entry(10, 10)];
    assert_eq!(srt_file.entries(), &expected_entries);
}

#[test]
fn test_negative_duration_is_invalid() {
    let mut srt_file = file_of(vec![create_entry(10, 15), create_entry(5, 20)]);
    let entries_before = srt_file.entries().clone();

    let result = srt_file.fix_ts_overlap(OverlapFixMode::After);
    assert!(result.is_err());
    assert_eq!(srt_file.entries(), &entries_before);
}

#[test]
fn test_no_overlap() {
    let srt_file = file_of(vec![create_entry(0, 5), create_entry(6, 10), create_entry(11, 15)]);
    assert!(!srt_file.check_ts_overlap());
}

#[test]
fn test_touching_entries() {
    let srt_file = file_of(vec![create_entry(0, 5), create_entry(5, 10), create_entry(10, 15)]);
    assert!(!srt_file.check_ts_overlap());
}

#[test]
fn test_with_overlap() {
    let srt_file = file_of(vec![create_entry(0, 5), create_entry(4, 10), create_entry(11, 15)]);
    assert!(srt_file.check_ts_overlap());
}

#[test]
fn test_overlap_in_middle() {
    let srt_file = file_of(vec![create_entry(0, 5), create_entry(6, 10), create_entry(9, 15)]);
    assert!(srt_file.check_ts_overlap());
}

#[test]
fn test_contained_entry() {
    let srt_file = file_of(vec![create_entry(0, 10), create_entry(2, 8)]);
    assert!(srt_file.check_ts_overlap());
}

#[test]
fn test_empty_file_overlap() {
    let srt_file = file_of(vec![]);
    assert!(!srt_file.check_ts_overlap());
}

#[test]
fn test_single_entry() {
    let srt_file = file_of(vec![create_entry(0, 5)]);
    assert!(!srt_file.check_ts_overlap());
}

#[test]
fn test_complex_overlap() {
    let srt_file = file_of(vec![
        create_entry(0, 5),
        create_entry(5, 10),
        create_entry(12, 17),
        create_entry(16, 20),
    ]);
    assert!(srt_file.check_ts_overlap());
}

#[test]
fn test_write_single_entry() {
    let entry = SubtitleEntry::new(1, SrtTime::new(SEC, 2 * SEC), "Hello world!".to_string());
    let srt_file = file_of(vec![entry]);
    let output_str = srt_file.write();

    let expected = "1\n00:00:01,000 --> 00:00:02,000\nHello world!\n\n";
    assert_eq!(&output_str, expected);
}

#[test]
fn test_write_multiple_entries() {
    let entry1 = SubtitleEntry::new(1, SrtTime::new(SEC, 2 * SEC), "Hello.".to_string());
    let entry2 = SubtitleEntry::new(2, SrtTime::new(3 * SEC, 4 * SEC), "World.".to_string());
    let srt_file = file_of(vec![entry1, entry2]);

    let output_str = srt_file.write();
    let expected = "1\n00:00:01,000 --> 00:00:02,000\nHello.\n\n2\n00:00:03,000 --> 00:00:04,000\nWorld.\n\n";
    assert_eq!(&output_str, expected);
}

#[test]
fn test_standard_duration() {
    let dur = HOUR + 15 * MIN + 30 * SEC + 500;
    assert_eq!(SrtTime::dur_to_timestamp(dur), "01:15:30,500");
}

#[test]
fn test_just_minutes() {
    let dur = 12 * MIN;
    assert_eq!(SrtTime::dur_to_timestamp(dur), "00:12:00,000");
}

#[test]
fn test_just_milliseconds() {
    let dur = 999;
    assert_eq!(SrtTime::dur_to_timestamp(dur), "00:00:00,999");
}

#[test]
fn test_zero_duration() {
    let dur = 0;
    assert_eq!(SrtTime::dur_to_timestamp(dur), "00:00:00,000");
}

#[test]
fn test_max_srt_duration() {
    let dur = 99 * HOUR + 59 * MIN + 59 * SEC + 999;
    assert_eq!(SrtTime::dur_to_timestamp(dur), "99:59:59,999");
}

#[test]
fn test_overflow_to_minutes() {
    let dur = 59 * SEC + 1000;
    assert_eq!(SrtTime::dur_to_timestamp(dur), "00:01:00,000");
}

#[test]
fn test_overflow_to_hours() {
    let dur = 59 * MIN + 59 * SEC + 1000;
    assert_eq!(SrtTime::dur_to_timestamp(dur), "01:00:00,000");
}

#[test]
fn test_large_duration_beyond_srt_limit() {
    let dur = 101 * HOUR;
    assert_eq!(SrtTime::dur_to_timestamp(dur), "101:00:00,000");
}

#[test]
fn test_negative_duration() {
    let dur = -HOUR;
    assert_eq!(SrtTime::dur_to_timestamp(dur), "-01:00:00,000");
}

fn read_from_str(s: &str) -> Result<SrtFile, SrtError> {
    SrtFile::read(s)
}

#[test]
fn test_valid_single_entry() {
    let srt_content = "1\n00:00:01,000 --> 00:00:02,000\nHello world!\n\n";
    let srt_file = read_from_str(srt_content).unwrap();
    assert_eq!(srt_file.entries().len(), 1);
    let entry = &srt_file.entries()[0];
    assert_eq!(entry.index, 1);
    assert_eq!(entry.timestamp().beg_ts(), SEC);
    assert_eq!(entry.timestamp().end_ts(), 2 * SEC);
    assert_eq!(entry.text, "Hello world!");
}

#[test]
fn test_valid_multiple_entries() {
    let srt_content = "1\n00:00:01,000 --> 00:00:02,000\nHello.\n\n2\n00:00:03,000 --> 00:00:04,000\nWorld.\n\n";
    let srt_file = read_from_str(srt_content).unwrap();
    assert_eq!(srt_file.entries().len(), 2);
    assert_eq!(srt_file.entries()[0].text, "Hello.");
    assert_eq!(srt_file.entries()[1].text, "World.");
}

#[test]
fn test_multiline_text() {
    let srt_content = "1\n00:00:01,000 --> 00:00:02,000\nHello\nworld!\n\n";
    let srt_file = read_from_str(srt_content).unwrap();
    assert_eq!(srt_file.entries().len(), 1);
    assert_eq!(srt_file.entries()[0].text, "Hello\nworld!");
}

#[test]
fn test_file_without_trailing_empty_line() {
    let srt_content = "1\n00:00:01,000 --> 00:00:02,000\nHello world!";
    let srt_file = read_from_str(srt_content).unwrap();
    assert_eq!(srt_file.entries().len(), 1);
    assert_eq!(srt_file.entries()[0].text, "Hello world!");
}

#[test]
fn test_invalid_index() {
    let srt_content = "one\n00:00:01,000 --> 00:00:02,000\nHello.";
    let err = read_from_str(srt_content).unwrap_err();
    assert!(matches!(err, SrtError::ParseTextError(_)));
}

#[test]
fn test_invalid_timestamp_format() {
    let srt_content = "1\n00:00:01,000 - 00:00:02,000\nHello.";
    let err = read_from_str(srt_content).unwrap_err();
    assert!(matches!(err, SrtError::ParseTimeError(_)));
}

#[test]
fn test_empty_file() {
    let srt_content = "";
    let srt_file = read_from_str(srt_content).unwrap();
    assert_eq!(srt_file.entries().len(), 0);
}

#[test]
fn test_only_empty_lines() {
    let srt_content = "\n\n\n";
    let srt_file = read_from_str(srt_content).unwrap();
    assert_eq!(srt_file.entries().len(), 0);
}

#[test]
fn test_valid_timestamp_line() {
    let line = "00:01:10,250 --> 00:01:15,500";
    let result = SrtTime::from_line(line).unwrap();

    let expected_beg = MIN + 10 * SEC + 250;
    let expected_end = MIN + 15 * SEC + 500;

    assert_eq!(result.beg_ts(), expected_beg);
    assert_eq!(result.end_ts(), expected_end);
}

#[test]
fn test_boundary_timestamps() {
    let line = "00:00:00,000 --> 99:59:59,999";
    let result = SrtTime::from_line(line).unwrap();

    let expected_beg = 0;
    let expected_end = 99 * HOUR + 59 * MIN + 59 * SEC + 999;

    assert_eq!(result.beg_ts(), expected_beg);
    assert_eq!(result.end_ts(), expected_end);

    let line = "01:00:00,000 --> 01:00:00,000";
    let result = SrtTime::from_line(line).unwrap();

    let expected_beg_end = HOUR;
    assert_eq!(result.beg_ts(), expected_beg_end);
    assert_eq!(result.end_ts(), expected_beg_end);
}

#[test]
fn test_invalid_line_format() {
    let line = "00:01:10,250 00:01:15,500";
    let err = SrtTime::from_line(line).unwrap_err();
    assert!(matches!(err, SrtError::ParseTimeError(_)));
    assert!(err.message().contains(line));

    let line = "00:01:10,250 --> 00:01:15";
    let err = SrtTime::from_line(line).unwrap_err();
    assert!(matches!(err, SrtError::ParseTimeError(_)));
    assert!(err.message().contains(line));

    let line = "00:01:15,500 --> 00:01:10,250";
    let err = SrtTime::from_line(line).unwrap_err();
    assert!(matches!(err, SrtError::ParseTimeError(_)));
    assert!(err.message().contains("endtime is greater then begintime"));
}

#[test]
fn test_valid_time_components() {
    let result = SrtTime::from_seg("01", "15", "30", "500").unwrap();
    let expected = HOUR + 15 * MIN + 30 * SEC + 500;
    assert_eq!(result, expected);

    let result = SrtTime::from_seg("00", "00", "00", "123").unwrap();
    let expected = 123;
    assert_eq!(result, expected);

    let result = SrtTime::from_seg("00", "00", "00", "000").unwrap();
    let expected = 0;
    assert_eq!(result, expected);

    let result = SrtTime::from_seg("12", "00", "00", "000").unwrap();
    let expected = 12 * HOUR;
    assert_eq!(result, expected);
}

#[test]
fn test_boundary_values() {
    let result = SrtTime::from_seg("99", "59", "59", "999").unwrap();
    let expected = 99 * HOUR + 59 * MIN + 59 * SEC + 999;
    assert_eq!(result, expected);

    let result = SrtTime::from_seg("01", "02", "03", "000").unwrap();
    let expected = HOUR + 2 * MIN + 3 * SEC;
    assert_eq!(result, expected);

    let result = SrtTime::from_seg("00", "00", "00", "000").unwrap();
    assert_eq!(result, 0);
}

#[test]
fn test_invalid_input_and_parsing_errors() {
    let err = SrtTime::from_seg("100", "00", "00", "000").unwrap_err();
    assert!(matches!(err, SrtError::ParseTimeError(_)));
    assert!(err.message().contains("invalid timestamp"));

    let err = SrtTime::from_seg("00", "60", "00", "000").unwrap_err();
    assert!(matches!(err, SrtError::ParseTimeError(_)));
    assert!(err.message().contains("invalid timestamp"));

    let err = SrtTime::from_seg("00", "00", "60", "000").unwrap_err();
    assert!(matches!(err, SrtError::ParseTimeError(_)));
    assert!(err.message().contains("invalid timestamp"));

    let err = SrtTime::from_seg("00", "00", "00", "1000").unwrap_err();
    assert!(matches!(err, SrtError::ParseTimeError(_)));
    assert!(err.message().contains("invalid timestamp"));

    let err = SrtTime::from_seg("a", "00", "00", "000").unwrap_err();
    assert!(matches!(err, SrtError::ParseTimeError(_)));
    assert!(err.message().contains("invalid hour"));

    let err = SrtTime::from_seg("-1", "00", "00", "000").unwrap_err();
    assert!(matches!(err, SrtError::ParseTimeError(_)));
    assert!(err.message().contains("invalid timestamp"));
}
