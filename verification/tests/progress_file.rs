use hooddl::progress::{
    format_progress, parse_line, parse_progress, progress_file_name, ProgressAction,
    ProgressManager, ProgressManagerCommand, ProgressTable, SegmentDownloadProgress,
};

fn rec(offset: u64, size: u64, progress: u64) -> SegmentDownloadProgress {
    SegmentDownloadProgress { offset, size, progress }
}

#[test]
fn format_orders_lines_by_offset() {
    let mut t: ProgressTable = ProgressTable::new();
    t.insert(20, rec(20, 10, 3));
    t.insert(0, rec(0, 10, 10));
    t.insert(10, rec(10, 10, 0));
    assert_eq!(format_progress(&t), "0 10 10\n10 10 0\n20 10 3");
}

#[test]
fn format_of_empty_table_is_empty() {
    let t: ProgressTable = ProgressTable::new();
    assert_eq!(format_progress(&t), "");
}

#[test]
fn parse_reads_records_and_reports_bad_lines() {
    let parsed = parse_progress("0 10 4\nnot a record\n10 10 7\n\n20 5");
    assert_eq!(parsed.table.len(), 2);
    assert_eq!(parsed.table.get(&0), Some(&rec(0, 10, 4)));
    assert_eq!(parsed.table.get(&10), Some(&rec(10, 10, 7)));
    assert_eq!(parsed.rejected, vec!["not a record".to_string(), "".to_string(), "20 5".to_string()]);
}

#[test]
fn parse_trims_and_accepts_crlf_and_plus() {
    let parsed = parse_progress("  0 10 +4 \r\n10\t 10 7\n");
    assert_eq!(parsed.table.get(&0), Some(&rec(0, 10, 4)));
    assert_eq!(parsed.table.get(&10), Some(&rec(10, 10, 7)));
    assert!(parsed.rejected.is_empty());
}

#[test]
fn parse_rejects_double_spaces_and_overflow() {
    let parsed = parse_progress("0  10 4\n0 10 18446744073709551616\n0 10 18446744073709551615");
    assert_eq!(parsed.rejected.len(), 2);
    assert_eq!(parsed.table.get(&0), Some(&rec(0, 10, u64::MAX)));
}

#[test]
fn later_line_replaces_earlier_record() {
    let parsed = parse_progress("5 10 1\n5 10 9");
    assert_eq!(parsed.table.len(), 1);
    assert_eq!(parsed.table.get(&5), Some(&rec(5, 10, 9)));
}

#[test]
fn parse_of_empty_text_is_empty() {
    let parsed = parse_progress("");
    assert!(parsed.table.is_empty());
    assert!(parsed.rejected.is_empty());
}

#[test]
fn written_progress_reads_back() {
    let mut t: ProgressTable = ProgressTable::new();
    t.insert(0, rec(0, 1048576, 524288));
    t.insert(1048576, rec(1048576, 1048576, 0));
    t.insert(2097152, rec(2097152, 17, 17));
    let text = format_progress(&t);
    let parsed = parse_progress(&text);
    assert_eq!(parsed.table, t);
    assert!(parsed.rejected.is_empty());
}

#[test]
fn single_line_parse() {
    let line: Vec<char> = "1 2 3".chars().collect();
    assert_eq!(parse_line(&line), Some(rec(1, 2, 3)));
    let bad: Vec<char> = "1 2 -3".chars().collect();
    assert_eq!(parse_line(&bad), None);
}

#[test]
fn progress_file_name_appends_suffix() {
    assert_eq!(progress_file_name("movie.mkv"), "movie.mkv.dlprogress");
}

#[test]
fn manager_saves_whole_table_on_update_and_stops() {
    let mut initial: ProgressTable = ProgressTable::new();
    initial.insert(0, rec(0, 4, 0));
    initial.insert(4, rec(4, 4, 0));
    let mut m = ProgressManager::new("f.bin", initial);
    assert_eq!(m.progress_file(), "f.bin.dlprogress");
    match m.handle(ProgressManagerCommand::UpdateProgress(rec(4, 4, 2))) {
        ProgressAction::Save(text) => assert_eq!(text, "0 4 0\n4 4 2"),
        ProgressAction::Stop => panic!("expected a save"),
    }
    assert!(matches!(m.handle(ProgressManagerCommand::Stop), ProgressAction::Stop));
    assert_eq!(m.table.get(&4), Some(&rec(4, 4, 2)));
}
