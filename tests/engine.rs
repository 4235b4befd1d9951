use blowup::ffmpeg::FfmpegTool;
use blowup::sub::{
    extract_sub_srt_args, list_sub_stream_args, pager_key, update_srt_time, OverlapFixMode,
    PagerKey, SrtError, SrtFile, SrtTime, SubtitleEntry, SubtitleStreamInfo,
};

fn entry(beg_s: i64, end_s: i64) -> SubtitleEntry {
    SubtitleEntry::new(1, SrtTime::new(beg_s * 1000, end_s * 1000), String::new())
}

fn ranges(f: &SrtFile) -> Vec<(i64, i64)> {
    f.entries()
        .iter()
        .map(|e| (e.timestamp().beg_ts(), e.timestamp().end_ts()))
        .collect()
}

#[test]
fn range_line_round_trips_below_ceiling() {
    for &(b, e) in &[(0, 0), (1, 999), (61_001, 3_600_000), (359_999_999, 359_999_999)] {
        let line = SrtTime::new(b, e).to_line();
        let back = SrtTime::from_line(&line).unwrap();
        assert_eq!((back.beg_ts(), back.end_ts()), (b, e));
    }
}

#[test]
fn rendered_range_line_is_exact() {
    assert_eq!(SrtTime::new(1000, 2500).to_line(), "00:00:01,000 --> 00:00:02,500");
}

#[test]
fn unmatched_line_is_carried_whole() {
    for line in ["", "garbage", "0:00:01,000 --> 00:00:02,000", "00:00:01,000 --> 00:00:02,000 "] {
        match SrtTime::from_line(line) {
            Err(SrtError::ParseTimeError(m)) => assert_eq!(m, line),
            other => panic!("unexpected {:?}", other),
        }
    }
}

#[test]
fn field_out_of_range_in_line() {
    match SrtTime::from_line("00:60:00,000 --> 00:00:02,000") {
        Err(SrtError::ParseTimeError(m)) => assert_eq!(m, "invalid timestamp: 00:60:00.000"),
        other => panic!("unexpected {:?}", other),
    }
}

#[test]
fn negative_field_message_keeps_sign() {
    match SrtTime::from_seg("-1", "00", "00", "000") {
        Err(SrtError::ParseTimeError(m)) => assert_eq!(m, "invalid timestamp: -1:00:00.000"),
        other => panic!("unexpected {:?}", other),
    }
}

#[test]
fn no_overlap_in_empty_or_single_document() {
    assert!(!SrtFile::new(vec![]).check_ts_overlap());
    assert!(!SrtFile::new(vec![entry(5, 1000)]).check_ts_overlap());
}

#[test]
fn keep_first_repair_chain() {
    let mut f = SrtFile::new(vec![entry(0, 5), entry(4, 10), entry(9, 15)]);
    assert!(f.fix_ts_overlap(OverlapFixMode::Before).is_ok());
    assert_eq!(ranges(&f), vec![(0, 5000), (5000, 10000), (10000, 15000)]);
}

#[test]
fn keep_second_repair_chain() {
    let mut f = SrtFile::new(vec![entry(0, 5), entry(4, 10), entry(9, 15)]);
    assert!(f.fix_ts_overlap(OverlapFixMode::After).is_ok());
    assert_eq!(ranges(&f), vec![(0, 4000), (4000, 9000), (9000, 15000)]);
}

#[test]
fn repair_settles_every_pair() {
    let mut f = SrtFile::new(vec![entry(0, 10), entry(5, 12), entry(6, 20)]);
    assert!(f.fix_ts_overlap(OverlapFixMode::Before).is_ok());
    assert_eq!(ranges(&f), vec![(0, 10000), (10000, 12000), (12000, 20000)]);
}

#[test]
fn unrepairable_overlap_names_both_ranges() {
    let mut f = SrtFile::new(vec![entry(10, 15), entry(5, 20)]);
    let err = f.fix_ts_overlap(OverlapFixMode::After).unwrap_err();
    match &err {
        SrtError::OverlapError(m) => assert_eq!(
            m,
            "Fixing previous entry would result in non-positive duration: \
             prev(00:00:10,000 --> 00:00:15,000) curr(00:00:05,000 --> 00:00:20,000)"
        ),
        other => panic!("unexpected {:?}", other),
    }
    assert_eq!(ranges(&f), vec![(10000, 15000), (5000, 20000)]);
    assert!(err.message().starts_with("Failed to fix overlapping entries."));
}

#[test]
fn keep_first_failure() {
    let mut f = SrtFile::new(vec![entry(0, 20), entry(5, 10)]);
    assert!(matches!(f.fix_ts_overlap(OverlapFixMode::Before), Err(SrtError::OverlapError(_))));
    assert_eq!(ranges(&f), vec![(0, 20000), (5000, 10000)]);
}

#[test]
fn adjust_positive_shift() {
    let mut f = SrtFile::new(vec![entry(10, 15), entry(20, 25)]);
    assert!(f.adjust_timestamps(3000, OverlapFixMode::Before).is_ok());
    assert_eq!(ranges(&f), vec![(13000, 18000), (23000, 28000)]);
}

#[test]
fn adjust_negative_shift_skips_early_entry() {
    let mut f = SrtFile::new(vec![entry(2, 5), entry(10, 15)]);
    assert!(f.adjust_timestamps(-5000, OverlapFixMode::Before).is_ok());
    assert_eq!(ranges(&f), vec![(2000, 5000), (5000, 10000)]);
}

#[test]
fn adjust_reaching_ceiling_fails() {
    let mut f = SrtFile::new(vec![entry(0, 1), entry(359_000, 359_999)]);
    let r = f.adjust_timestamps(1000, OverlapFixMode::After);
    assert!(matches!(r, Err(SrtError::InvalidTsError)));
    // The first entry was already moved when the second failed.
    assert_eq!(ranges(&f)[0], (1000, 2000));
}

#[test]
fn adjust_by_largest_delta_fails_without_overflow() {
    let mut f = SrtFile::new(vec![entry(1, 2)]);
    let r = f.adjust_timestamps(i64::MAX, OverlapFixMode::Before);
    assert!(matches!(r, Err(SrtError::InvalidTsError)));
}

#[test]
fn adjust_by_smallest_delta_leaves_entries() {
    let mut f = SrtFile::new(vec![entry(1, 2)]);
    assert!(f.adjust_timestamps(i64::MIN, OverlapFixMode::Before).is_ok());
    assert_eq!(ranges(&f), vec![(1000, 2000)]);
}

#[test]
fn adjust_then_repair_overlap() {
    let mut f = SrtFile::new(vec![entry(10, 15), entry(12, 20)]);
    assert!(f.adjust_timestamps(1000, OverlapFixMode::After).is_ok());
    assert_eq!(ranges(&f), vec![(11000, 13000), (13000, 21000)]);
}

#[test]
fn parse_and_write_reproduce_bytes() {
    let text = "1\n00:00:01,000 --> 00:00:02,000\nHello world!\n\n";
    let f = SrtFile::read(text).unwrap();
    assert_eq!(f.entries().len(), 1);
    assert_eq!(f.entries()[0].index, 1);
    assert_eq!(f.entries()[0].text, "Hello world!");
    assert_eq!(f.write(), text);
}

#[test]
fn reparse_of_written_document_is_equal() {
    let text = "\n\n 2\r\n00:00:01,000 --> 00:00:02,000\r\nfirst line\n  second  \n\n\n\n9\n00:00:00,500 --> 00:01:02,003\n";
    let first = SrtFile::read(text).unwrap();
    let again = SrtFile::read(&first.write()).unwrap();
    assert_eq!(first.entries(), again.entries());
    assert_eq!(again.write(), first.write());
}

#[test]
fn crlf_lines_and_padding_lines() {
    let text = "\r\n  \n 7 \r\n00:00:01,000 --> 00:00:02,000\r\nA\r\nB\r\n\r\n";
    let f = SrtFile::read(text).unwrap();
    assert_eq!(f.entries().len(), 1);
    assert_eq!(f.entries()[0].index, 7);
    assert_eq!(f.entries()[0].text, "A\nB");
    assert_eq!(f.write(), "7\n00:00:01,000 --> 00:00:02,000\nA\nB\n\n");
}

#[test]
fn entry_without_text() {
    let f = SrtFile::read("3\n00:00:01,000 --> 00:00:02,000\n\n4\n00:00:03,000 --> 00:00:04,000").unwrap();
    assert_eq!(f.entries().len(), 2);
    assert_eq!(f.entries()[0].text, "");
    assert_eq!(f.entries()[1].index, 4);
}

#[test]
fn duplicate_and_unsorted_indices_are_kept() {
    let f = SrtFile::read("5\n00:00:01,000 --> 00:00:02,000\na\n\n5\n00:00:00,000 --> 00:00:01,000\nb\n").unwrap();
    assert_eq!(f.entries()[0].index, 5);
    assert_eq!(f.entries()[1].index, 5);
}

#[test]
fn index_line_errors() {
    match SrtFile::read("+x\n00:00:01,000 --> 00:00:02,000\n") {
        Err(SrtError::ParseTextError(m)) => assert_eq!(m, "+x"),
        other => panic!("unexpected {:?}", other),
    }
    assert!(matches!(SrtFile::read("4294967296\n"), Err(SrtError::ParseTextError(_))));
    assert_eq!(SrtFile::read("+4294967295\n00:00:01,000 --> 00:00:02,000").unwrap().entries()[0].index, u32::MAX);
}

#[test]
fn missing_timestamp_line() {
    match SrtFile::read("1\n") {
        Err(SrtError::ParseTextError(m)) => assert_eq!(m, "missing timestamp line"),
        other => panic!("unexpected {:?}", other),
    }
}

#[test]
fn reversed_range_in_document() {
    let r = SrtFile::read("1\n00:00:02,000 --> 00:00:01,000\nx\n");
    assert!(matches!(r, Err(SrtError::ParseTimeError(m)) if m == "endtime is greater then begintime"));
}

#[test]
fn error_messages() {
    assert_eq!(SrtError::InvalidTsError.message(), "Generated an invalid timestamp.");
    assert_eq!(SrtError::ParseTimeError("x".to_string()).message(), "Parse time error: x");
    assert_eq!(
        SrtError::ParseTextError("y".to_string()).message(),
        "Parse error occurred while read content: y"
    );
}

#[test]
fn durations_of_a_range() {
    let t = SrtTime::new(1500, 4200);
    assert_eq!(t.entry_dur_millis(), 2700);
    assert_eq!(t.entry_dur_secs(), 2);
    assert!(t.is_valid());
    assert!(!SrtTime::new(0, 360_000_000).is_valid());
}

#[test]
fn shift_whole_text() {
    let text = "1\n00:00:01,000 --> 00:00:02,000\nA\n\n2\n00:00:01,500 --> 00:00:03,000\nB\n\n";
    let out = update_srt_time(text, 1000, OverlapFixMode::Before).unwrap();
    assert_eq!(
        out,
        "1\n00:00:02,000 --> 00:00:03,000\nA\n\n2\n00:00:03,000 --> 00:00:04,000\nB\n\n"
    );
    assert!(matches!(update_srt_time("x", 0, OverlapFixMode::Before), Err(SrtError::ParseTextError(_))));
    assert!(matches!(
        update_srt_time(text, 360_000_000, OverlapFixMode::Before),
        Err(SrtError::InvalidTsError)
    ));
}

#[test]
fn ffmpeg_arguments() {
    assert_eq!(
        extract_sub_srt_args("in.mkv", "out.srt"),
        vec!["-i", "in.mkv", "-map", "0:s:0", "-c", "copy", "out.srt"]
    );
    assert_eq!(
        list_sub_stream_args("in.mkv"),
        vec!["-v", "quiet", "-print_format", "json", "-show_streams", "-select_streams", "s", "--", "in.mkv"]
    );
    assert_eq!(FfmpegTool::Ffmpeg.cli_name(), "ffmpeg");
    assert_eq!(FfmpegTool::Ffprobe.cli_name(), "ffprobe");
}

#[test]
fn stream_display() {
    let s = SubtitleStreamInfo {
        index: 2,
        codec_name: "subrip".to_string(),
        duration: 1500,
        language: Some("eng".to_string()),
        title: None,
    };
    assert_eq!(
        s.to_list_line(),
        "Index(2) Codec Name(subrip) Duration(1500ms) Language(eng) Title(N/A)"
    );
    assert_eq!(s.table_cells(), vec!["2", "subrip", "1500", "eng", "N/A"]);
}

#[test]
fn pager_keys() {
    assert_eq!(pager_key("n\n"), PagerKey::Show(1));
    assert_eq!(pager_key(" 7 "), PagerKey::Show(7));
    assert_eq!(pager_key("q"), PagerKey::Quit);
    assert_eq!(pager_key("0"), PagerKey::Invalid);
    assert_eq!(pager_key("nn"), PagerKey::Invalid);
    assert_eq!(pager_key(""), PagerKey::Invalid);
}
