use binspector::matcher::compute_matches;
use binspector::render::matches_to_csv;
use binspector::{run_scan, ScanError};

fn strings(items: &[&str]) -> Vec<String> {
    items.iter().map(|s| s.to_string()).collect()
}

#[test]
fn case_insensitive_matches_exactly_when_requested() {
    let strs = strings(&["unsafe_STRCPY_call"]);
    let banned = strings(&["Strcpy"]);
    let sensitive = compute_matches(&strs, &banned, false);
    assert!(sensitive.is_empty());
    let insensitive = compute_matches(&strs, &banned, true);
    assert_eq!(insensitive.len(), 1);
    assert_eq!(insensitive[0].function, "Strcpy");
    assert_eq!(insensitive[0].occurrences, 1);
}

#[test]
fn counting_is_per_string_not_per_offset() {
    let strs = strings(&["gets_and_gets"]);
    let banned = strings(&["gets"]);
    let got = compute_matches(&strs, &banned, false);
    assert_eq!(got.len(), 1);
    assert_eq!(got[0].occurrences, 1);
}

#[test]
fn zero_count_names_are_dropped() {
    let strs = strings(&["nothing here"]);
    let banned = strings(&["gets", "strcpy"]);
    let got = compute_matches(&strs, &banned, false);
    assert!(got.is_empty());
}

#[test]
fn matches_sorted_by_descending_count() {
    let strs = strings(&[
        "gets a", "b gets", "getsgets", "x gets y", "gets!", "strcpy 1", "strcpy 2", "2 strcpy",
        "sprintf once",
    ]);
    let banned = strings(&["gets", "sprintf", "strcpy"]);
    let got = compute_matches(&strs, &banned, false);
    let pairs: Vec<(&str, usize)> = got
        .iter()
        .map(|m| (m.function.as_str(), m.occurrences))
        .collect();
    assert_eq!(pairs, vec![("gets", 5), ("strcpy", 3), ("sprintf", 1)]);
}

#[test]
fn ties_keep_banned_list_order() {
    let strs = strings(&["gets strcpy", "strcpy gets"]);
    let banned = strings(&["gets", "strcpy"]);
    let got = compute_matches(&strs, &banned, false);
    let pairs: Vec<(&str, usize)> = got
        .iter()
        .map(|m| (m.function.as_str(), m.occurrences))
        .collect();
    assert_eq!(pairs, vec![("gets", 2), ("strcpy", 2)]);
}

#[test]
fn scan_finds_ascii_banned_name() {
    let data = b"\x00strcpy\x00";
    let banned = strings(&["strcpy"]);
    let got = run_scan(data, 4, true, true, false, &banned).unwrap();
    assert_eq!(got.len(), 1);
    assert_eq!(got[0].function, "strcpy");
    assert_eq!(got[0].occurrences, 1);
}

#[test]
fn scan_finds_utf16_banned_name_with_ascii_disabled() {
    let data = b"g\x00e\x00t\x00s\x00";
    let banned = strings(&["gets"]);
    let got = run_scan(data, 4, false, true, false, &banned).unwrap();
    assert_eq!(got.len(), 1);
    assert_eq!(got[0].function, "gets");
    assert_eq!(got[0].occurrences, 1);
}

#[test]
fn disabling_both_extractors_is_an_error() {
    let data = b"\x00strcpy\x00";
    let banned = strings(&["strcpy"]);
    let r = run_scan(data, 4, false, false, false, &banned);
    assert!(matches!(r, Err(ScanError::NoExtractorEnabled)));
}

#[test]
fn csv_rendering_is_exact() {
    let strs = strings(&[
        "gets 1", "gets 2", "gets 3", "gets 4", "gets 5", "gets 6", "gets 7", "gets 8", "gets 9",
        "gets 10", "gets 11", "gets 12", "strcpy",
    ]);
    let banned = strings(&["gets", "strcpy"]);
    let got = compute_matches(&strs, &banned, false);
    let csv = matches_to_csv(&got);
    assert_eq!(csv, "function,occurrences\ngets,12\nstrcpy,1\n");
}
