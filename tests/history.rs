use labs::decimal::{format_decimal, parse_count};
use labs::recorder::sanitize_label;
use labs::{
    exit_status_text, hist, hist_options, list_records, parse_record_dir_name, precmd, preexec,
    prev, record_dir_name, session_root, LabsError, RecordEntry, DEFAULT_HIST_COUNT,
};

fn names(v: &[&str]) -> Vec<String> {
    v.iter().map(|s| s.to_string()).collect()
}

fn indices(v: &[RecordEntry]) -> Vec<usize> {
    v.iter().map(|e| e.index).collect()
}

/// A session in which the hook before each command ran for `cmds`, in order.
fn session(cmds: &[&str]) -> Vec<String> {
    let mut dirs: Vec<String> = Vec::new();
    for (i, c) in cmds.iter().enumerate() {
        let d = preexec(&dirs, i, c);
        dirs.push(d);
    }
    dirs
}

#[test]
fn decimal_formatting() {
    assert_eq!(format_decimal(0), "0");
    assert_eq!(format_decimal(7), "7");
    assert_eq!(format_decimal(1234), "1234");
    assert_eq!(format_decimal(u64::MAX), "18446744073709551615");
}

#[test]
fn count_parsing() {
    assert_eq!(parse_count("42"), Some(42));
    assert_eq!(parse_count("007"), Some(7));
    assert_eq!(parse_count(""), None);
    assert_eq!(parse_count("4a"), None);
    assert_eq!(parse_count("-1"), None);
    assert_eq!(parse_count(&usize::MAX.to_string()), Some(usize::MAX));
    assert_eq!(parse_count("99999999999999999999999"), None);
}

#[test]
fn record_dir_names() {
    assert_eq!(record_dir_name(3, "ls"), "3__ls");
    assert_eq!(record_dir_name(0, ""), "0__");
    assert_eq!(record_dir_name(12, "last_command"), "12__last_command");
}

#[test]
fn record_dir_name_reading() {
    let e = parse_record_dir_name("12__echo hi").unwrap();
    assert_eq!(e.index, 12);
    assert_eq!(e.label, "echo hi");
    assert_eq!(e.dir, "12__echo hi");
    let z = parse_record_dir_name("7__x__y").unwrap();
    assert_eq!(z.index, 7);
    assert_eq!(z.label, "x__y");
    let zero = parse_record_dir_name("0__ls").unwrap();
    assert_eq!(zero.index, 0);
    assert!(parse_record_dir_name("007__x__y").is_none());
    assert!(parse_record_dir_name("00__x").is_none());
    assert!(parse_record_dir_name("01__x").is_none());
    assert!(parse_record_dir_name("notes").is_none());
    assert!(parse_record_dir_name("12_x").is_none());
    assert!(parse_record_dir_name("__x").is_none());
    assert!(parse_record_dir_name("12").is_none());
    assert!(parse_record_dir_name("99999999999999999999999__x").is_none());
}

#[test]
fn listing_sorts_by_index_and_skips_other_names() {
    let recs = list_records(&names(&["10__make", "2__echo hi", "notes", "0__ls", "1__pwd"]));
    assert_eq!(indices(&recs), vec![0, 1, 2, 10]);
    assert_eq!(recs[3].label, "make");
    assert!(list_records(&Vec::new()).is_empty());
}

#[test]
fn labels_are_sanitized() {
    assert_eq!(sanitize_label("cat a/b"), "cat a_b");
    assert_eq!(sanitize_label("ls"), "ls");
    assert_eq!(preexec(&Vec::new(), 5, "cd /tmp"), "5__cd _tmp");
}

#[test]
fn hist_returns_newest_first() {
    let recs = list_records(&session(&["ls", "pwd", "echo hi"]));
    let h = hist(&recs, 2, 0);
    assert_eq!(indices(&h), vec![2, 1]);
    assert_eq!(h[0].label, "echo hi");
    assert_eq!(h[1].label, "pwd");
}

#[test]
fn hist_count_is_min_of_n_and_records() {
    let recs = list_records(&session(&["a", "b", "c", "d"]));
    assert_eq!(hist(&recs, 10, 0).len(), 4);
    assert_eq!(hist(&recs, 3, 0).len(), 3);
    assert_eq!(hist(&recs, 0, 0).len(), 0);
    assert_eq!(indices(&hist(&recs, DEFAULT_HIST_COUNT, 0)), vec![3, 2, 1, 0]);
}

#[test]
fn hist_with_offset() {
    let recs = list_records(&session(&["a", "b", "c", "d"]));
    assert_eq!(indices(&hist(&recs, 2, 1)), vec![2, 1]);
    assert_eq!(indices(&hist(&recs, 10, 3)), vec![0]);
    assert!(hist(&recs, 10, 4).is_empty());
    assert!(hist(&recs, 10, usize::MAX).is_empty());
}

#[test]
fn empty_session() {
    let recs = list_records(&Vec::new());
    assert!(hist(&recs, 5, 0).is_empty());
    assert_eq!(prev(&recs).unwrap_err(), LabsError::NotFound);
}

#[test]
fn prev_is_first_of_hist() {
    let recs = list_records(&session(&["ls", "pwd", "echo hi"]));
    let p = prev(&recs).unwrap();
    let h = hist(&recs, 1, 0);
    assert_eq!(p.index, 2);
    assert_eq!(p.index, h[0].index);
    assert_eq!(p.dir, h[0].dir);
    assert_eq!(p.label, h[0].label);
}

#[test]
fn preexec_twice_reuses_directory() {
    let mut dirs: Vec<String> = Vec::new();
    let first = preexec(&dirs, 0, "ls");
    assert_eq!(first, "0__ls");
    dirs.push(first.clone());
    let second = preexec(&dirs, 0, "ls -la");
    assert_eq!(second, first);
}

#[test]
fn precmd_writes_to_matching_preexec_directory() {
    let dirs = session(&["ls", "pwd"]);
    assert_eq!(precmd(&dirs, 1), "1__pwd");
}

#[test]
fn precmd_without_preexec_uses_fallback() {
    let mut dirs = session(&["ls"]);
    let d = precmd(&dirs, 4);
    assert_eq!(d, "4__last_command");
    dirs.push(d);
    let recs = list_records(&dirs);
    assert_eq!(indices(&recs), vec![0, 4]);
    assert_eq!(prev(&recs).unwrap().label, "last_command");
}

#[test]
fn exit_status_texts() {
    assert_eq!(exit_status_text(0), "0");
    assert_eq!(exit_status_text(127), "127");
    assert_eq!(exit_status_text(-1), "-1");
    assert_eq!(exit_status_text(i32::MIN), "-2147483648");
    assert_eq!(exit_status_text(i32::MAX), "2147483647");
}

#[test]
fn session_root_choice() {
    let s = |x: &str| Some(x.to_string());
    assert_eq!(session_root(s("/a"), s("/b")), Ok("/a".to_string()));
    assert_eq!(session_root(None, s("/b")), Ok("/b".to_string()));
    assert_eq!(session_root(s(""), s("/b")), Ok("/b".to_string()));
    assert_eq!(session_root(None, None), Err(LabsError::Config));
    assert_eq!(session_root(s(""), s("")), Err(LabsError::Config));
}

#[test]
fn hist_option_values() {
    assert_eq!(hist_options(None, None), Some((DEFAULT_HIST_COUNT, 0)));
    assert_eq!(DEFAULT_HIST_COUNT, 10);
    assert_eq!(hist_options(Some("3"), Some("2")), Some((3, 2)));
    assert_eq!(hist_options(Some("x"), None), None);
    assert_eq!(hist_options(None, Some("")), None);
}

#[test]
fn error_messages() {
    assert_eq!(LabsError::NotFound.message(), "no history");
    assert_eq!(LabsError::Config.message(), "session root missing or not found");
    assert_eq!(LabsError::Io.message(), "could not write the record");
}

#[test]
fn zero_padded_names_are_not_records() {
    let dirs = names(&["00__x"]);
    assert_eq!(precmd(&dirs, 0), "0__last_command");
    assert_eq!(preexec(&dirs, 0, "cat /etc/hosts"), "0__cat _etc_hosts");
    assert!(list_records(&dirs).is_empty());
    let mut dirs = names(&["00__x"]);
    let first = preexec(&dirs, 0, "ls");
    dirs.push(first.clone());
    assert_eq!(preexec(&dirs, 0, "pwd"), first);
    assert_eq!(first, "0__ls");
}

#[test]
fn fallback_record_is_newest() {
    let mut dirs = session(&["ls", "pwd"]);
    let d = precmd(&dirs, 2);
    dirs.push(d);
    let recs = list_records(&dirs);
    let p = prev(&recs).unwrap();
    assert_eq!(p.index, 2);
    assert_eq!(p.dir, "2__last_command");
    assert_eq!(indices(&hist(&recs, 5, 0)), vec![2, 1, 0]);
}
