//! End-to-end tests: ingesting reports through a session and querying
//! the resulting index.

use disk_report::records::AnalysisError;
use disk_report::session::Session;

const REPORT: &str = "C:\\Data [10 MB]\n  [4 MB] big.bin\n  [1 KB] small.txt\nC:\\Data\\Sub [6 MB]\n  [6 MB] nested.bin\n";

#[test]
fn scenario_summary() {
    let mut session = Session::new();
    let summary = session.parse_report(REPORT.as_bytes()).unwrap();
    assert_eq!(summary.total_dirs, 2);
    assert_eq!(summary.total_files, 3);
    assert_eq!(summary.root_path, "C:\\Data");
    assert_eq!(summary.total_size_bytes, 10 * 1024 * 1024);
}

#[test]
fn scenario_directory_content() {
    let mut session = Session::new();
    session.parse_report(REPORT.as_bytes()).unwrap();
    let (dirs, files) = session.get_dir_content(&String::from("C:\\Data")).unwrap();
    assert_eq!(dirs.len(), 1);
    assert_eq!(dirs[0].path, "C:\\Data\\Sub");
    assert_eq!(dirs[0].size_bytes, 6 * 1024 * 1024);
    let names: Vec<&str> = files.iter().map(|f| f.name.as_str()).collect();
    assert_eq!(names, vec!["big.bin", "small.txt"]);
    assert!(names.iter().all(|n| *n != "nested.bin"));
}

#[test]
fn scenario_top_files() {
    let mut session = Session::new();
    session.parse_report(REPORT.as_bytes()).unwrap();
    let top = session.get_top_files(1).unwrap();
    assert_eq!(top.len(), 1);
    assert_eq!(top[0].name, "nested.bin");
    assert_eq!(top[0].size_bytes, 6 * 1024 * 1024);
    let all = session.get_top_files(10).unwrap();
    let names: Vec<&str> = all.iter().map(|f| f.name.as_str()).collect();
    assert_eq!(names, vec!["nested.bin", "big.bin", "small.txt"]);
}

#[test]
fn search_by_name_and_parent() {
    let mut session = Session::new();
    session.parse_report(REPORT.as_bytes()).unwrap();
    let hits = session.search_files(&String::from("big"), 10).unwrap();
    assert_eq!(hits.len(), 1);
    assert_eq!(hits[0].name, "big.bin");
    // every file's parent path contains "Data"; results come largest first
    let hits = session.search_files(&String::from("Data"), -1).unwrap();
    let names: Vec<&str> = hits.iter().map(|f| f.name.as_str()).collect();
    assert_eq!(names, vec!["nested.bin", "big.bin", "small.txt"]);
    // the match is case-sensitive: this store's collation
    let hits = session.search_files(&String::from("data"), 10).unwrap();
    assert!(hits.is_empty());
}

#[test]
fn search_respects_limit() {
    let mut session = Session::new();
    session.parse_report(REPORT.as_bytes()).unwrap();
    let hits = session.search_files(&String::from("Data"), 2).unwrap();
    assert_eq!(hits.len(), 2);
    assert_eq!(hits[0].name, "nested.bin");
    assert_eq!(hits[1].name, "big.bin");
    let none = session.search_files(&String::from("Data"), 0).unwrap();
    assert!(none.is_empty());
}

#[test]
fn malformed_line_is_ignored() {
    let with_garbage = "C:\\Data [10 MB]\ngarbage line with no brackets\n  [4 MB] big.bin\n  [1 KB] small.txt\nC:\\Data\\Sub [6 MB]\ngarbage line with no brackets\n  [6 MB] nested.bin\n";
    let mut session = Session::new();
    let summary = session.parse_report(with_garbage.as_bytes()).unwrap();
    assert_eq!(summary.total_dirs, 2);
    assert_eq!(summary.total_files, 3);
    // the garbage never surfaces as a record
    let hits = session.search_files(&String::from("garbage"), 10).unwrap();
    assert!(hits.is_empty());
}

#[test]
fn file_lines_before_any_directory_are_dropped() {
    let report = "  [4 MB] orphan.bin\n  [1 KB] lost.txt\nC:\\Data [10 MB]\n  [1 KB] kept.txt\n";
    let mut session = Session::new();
    let summary = session.parse_report(report.as_bytes()).unwrap();
    assert_eq!(summary.total_dirs, 1);
    assert_eq!(summary.total_files, 1);
    let hits = session.search_files(&String::from("orphan"), 10).unwrap();
    assert!(hits.is_empty());
}

#[test]
fn reparse_replaces_everything() {
    let mut session = Session::new();
    session.parse_report(REPORT.as_bytes()).unwrap();
    let second = "D:\\Other [1 KB]\n  [1 KB] other.txt\n";
    let summary = session.parse_report(second.as_bytes()).unwrap();
    assert_eq!(summary.total_dirs, 1);
    assert_eq!(summary.total_files, 1);
    assert_eq!(summary.root_path, "D:\\Other");
    // nothing of the first report remains reachable
    let hits = session.search_files(&String::from("big"), 10).unwrap();
    assert!(hits.is_empty());
    let top = session.get_top_files(10).unwrap();
    assert_eq!(top.len(), 1);
    assert_eq!(top[0].name, "other.txt");
}

#[test]
fn reparse_same_bytes_is_idempotent() {
    let mut session = Session::new();
    let s1 = session.parse_report(REPORT.as_bytes()).unwrap();
    let top1 = session.get_top_files(10).unwrap();
    let (dirs1, files1) = session.get_dir_content(&String::from("C:\\Data")).unwrap();
    let s2 = session.parse_report(REPORT.as_bytes()).unwrap();
    let top2 = session.get_top_files(10).unwrap();
    let (dirs2, files2) = session.get_dir_content(&String::from("C:\\Data")).unwrap();
    assert_eq!(s1.total_dirs, s2.total_dirs);
    assert_eq!(s1.total_files, s2.total_files);
    assert_eq!(s1.root_path, s2.root_path);
    assert_eq!(s1.total_size_bytes, s2.total_size_bytes);
    assert_eq!(top1.len(), top2.len());
    for (a, b) in top1.iter().zip(top2.iter()) {
        assert_eq!(a.name, b.name);
        assert_eq!(a.size_bytes, b.size_bytes);
        assert_eq!(a.parent_path, b.parent_path);
    }
    assert_eq!(dirs1.len(), dirs2.len());
    for (a, b) in dirs1.iter().zip(dirs2.iter()) {
        assert_eq!(a.path, b.path);
        assert_eq!(a.size_bytes, b.size_bytes);
    }
    assert_eq!(files1.len(), files2.len());
    for (a, b) in files1.iter().zip(files2.iter()) {
        assert_eq!(a.name, b.name);
    }
}

#[test]
fn queries_before_parse_fail() {
    let session = Session::new();
    assert_eq!(
        session.get_top_files(5).unwrap_err(),
        AnalysisError::NoActiveIndex
    );
    assert_eq!(
        session.search_files(&String::from("x"), 5).unwrap_err(),
        AnalysisError::NoActiveIndex
    );
    assert_eq!(
        session
            .get_dir_content(&String::from("C:\\Data"))
            .unwrap_err(),
        AnalysisError::NoActiveIndex
    );
    assert_eq!(
        AnalysisError::NoActiveIndex.message(),
        String::from("no report loaded")
    );
}

#[test]
fn invalid_utf8_is_replaced() {
    let mut report: Vec<u8> = Vec::new();
    report.extend_from_slice(b"C:\\Data [1 KB]\n  [1 KB] bad");
    report.push(0xFF);
    report.extend_from_slice(b".bin\n");
    let mut session = Session::new();
    let summary = session.parse_report(&report).unwrap();
    assert_eq!(summary.total_files, 1);
    assert_eq!(summary.root_path, "C:\\Data");
    let top = session.get_top_files(1).unwrap();
    assert_eq!(top[0].name, "bad\u{FFFD}.bin");
}

#[test]
fn empty_report_has_no_root() {
    let mut session = Session::new();
    let err = session.parse_report(b"").unwrap_err();
    assert_eq!(err, AnalysisError::EmptyReport);
    assert_eq!(
        err.message(),
        String::from("report holds no directory entry")
    );
    // the empty store still replaced the session's index
    let top = session.get_top_files(10).unwrap();
    assert!(top.is_empty());
}

#[test]
fn duplicate_directory_upserts() {
    let report = "C:\\A [1 KB]\n  [1 KB] one.txt\nC:\\A [2 KB]\n";
    let mut session = Session::new();
    let summary = session.parse_report(report.as_bytes()).unwrap();
    assert_eq!(summary.total_dirs, 1);
    assert_eq!(summary.total_files, 1);
    // the later occurrence wins
    assert_eq!(summary.total_size_bytes, 2048);
}

#[test]
fn immediate_children_only() {
    let report = "C:\\Data [10 MB]\nC:\\Data\\Sub [6 MB]\nC:\\Data\\Sub\\Deep [1 MB]\nC:\\Database [3 MB]\n";
    let mut session = Session::new();
    session.parse_report(report.as_bytes()).unwrap();
    let (dirs, _) = session.get_dir_content(&String::from("C:\\Data")).unwrap();
    let paths: Vec<&str> = dirs.iter().map(|d| d.path.as_str()).collect();
    // the grandchild is excluded, and a shared prefix is not a child
    assert_eq!(paths, vec!["C:\\Data\\Sub"]);
}

#[test]
fn blank_lines_keep_the_parent() {
    let report = "C:\\Data [10 MB]\n\n\n  [4 MB] big.bin\n";
    let mut session = Session::new();
    let summary = session.parse_report(report.as_bytes()).unwrap();
    assert_eq!(summary.total_files, 1);
    let top = session.get_top_files(1).unwrap();
    assert_eq!(top[0].parent_path, "C:\\Data");
}

#[test]
fn crlf_line_endings() {
    let report = "C:\\Data [10 MB]\r\n  [4 MB] big.bin\r\n";
    let mut session = Session::new();
    let summary = session.parse_report(report.as_bytes()).unwrap();
    assert_eq!(summary.total_dirs, 1);
    assert_eq!(summary.total_files, 1);
    assert_eq!(summary.root_path, "C:\\Data");
    let top = session.get_top_files(1).unwrap();
    assert_eq!(top[0].name, "big.bin");
    assert_eq!(top[0].size_str, "4 MB");
}

#[test]
fn no_trailing_newline() {
    let report = "C:\\Data [10 MB]\n  [4 MB] big.bin";
    let mut session = Session::new();
    let summary = session.parse_report(report.as_bytes()).unwrap();
    assert_eq!(summary.total_files, 1);
}

#[test]
fn size_str_kept_verbatim() {
    let mut session = Session::new();
    let summary = session.parse_report(REPORT.as_bytes()).unwrap();
    assert_eq!(summary.total_dirs, 2);
    let top = session.get_top_files(10).unwrap();
    assert_eq!(top[0].size_str, "6 MB");
    assert_eq!(top[2].size_str, "1 KB");
    let (dirs, _) = session.get_dir_content(&String::from("C:\\Data")).unwrap();
    assert_eq!(dirs[0].size_str, "6 MB");
}

#[test]
fn unclosed_directory_bracket_runs_to_line_end() {
    let report = "C:\\Data [10 MB\n  [1 KB] a.txt\n";
    let mut session = Session::new();
    let summary = session.parse_report(report.as_bytes()).unwrap();
    assert_eq!(summary.total_dirs, 1);
    assert_eq!(summary.total_size_bytes, 10 * 1024 * 1024);
}

#[test]
fn file_without_closing_bracket_is_dropped() {
    let report = "C:\\Data [10 MB]\n  [1 KB a.txt\n  [2 KB] b.txt\n";
    let mut session = Session::new();
    let summary = session.parse_report(report.as_bytes()).unwrap();
    assert_eq!(summary.total_files, 1);
    let top = session.get_top_files(10).unwrap();
    assert_eq!(top[0].name, "b.txt");
}

#[test]
fn root_is_first_shortest_path() {
    let report = "B:\\x [1 KB]\nA:\\y [2 KB]\n";
    let mut session = Session::new();
    let summary = session.parse_report(report.as_bytes()).unwrap();
    // equal lengths: the record seen first stays the root
    assert_eq!(summary.root_path, "B:\\x");
    assert_eq!(summary.total_size_bytes, 1024);
}

#[test]
fn ties_keep_storage_order() {
    let report = "C:\\D [9 KB]\n  [2 KB] first.txt\n  [2 KB] second.txt\n  [3 KB] big.txt\n";
    let mut session = Session::new();
    session.parse_report(report.as_bytes()).unwrap();
    let top = session.get_top_files(10).unwrap();
    let names: Vec<&str> = top.iter().map(|f| f.name.as_str()).collect();
    assert_eq!(names, vec!["big.txt", "first.txt", "second.txt"]);
}
