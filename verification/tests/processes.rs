use procwatch::process_scanner::{
    clean_cmdline, euid_from_captures, Process, ProcessScanner, ProcessSnapshot,
};

fn strings(items: &[&str]) -> Vec<String> {
    items.iter().map(|s| s.to_string()).collect()
}

fn status(uids: &str) -> String {
    format!("Name:\tsleep\nUmask:\t0022\nState:\tS (sleeping)\nPid:\t42\nUid:\t{}\nGid:\t0\t0\t0\t0\n", uids)
}

fn snapshot(pid: u32, status: Option<&str>, cmdline: Option<&str>) -> ProcessSnapshot {
    ProcessSnapshot {
        pid,
        status: status.map(|s| s.to_string()),
        cmdline: cmdline.map(|s| s.to_string()),
    }
}

fn captures(items: &[Option<&str>]) -> Vec<Option<String>> {
    items.iter().map(|c| c.map(|s| s.to_string())).collect()
}

#[test]
fn pids_are_the_names_that_write_a_number() {
    let names = strings(&["1", "self", "42", "sys", "007", "+5", "-3", "4294967295", "4294967296", ""]);
    assert_eq!(ProcessScanner::get_pids(&names), vec![1, 42, 7, 5, u32::MAX]);
    assert_eq!(ProcessScanner::get_pids(&Vec::new()), Vec::<u32>::new());
}

#[test]
fn cmdline_is_trimmed_then_cleaned() {
    assert_eq!(clean_cmdline("sleep\x0060\0"), "sleep 60 ");
    assert_eq!(clean_cmdline("  /bin/sh\0-c\0echo\0  "), "/bin/sh -c echo ");
    assert_eq!(clean_cmdline("a\nb\rc"), "abc");
    assert_eq!(clean_cmdline("\n\0\n"), " ");
    assert_eq!(clean_cmdline(""), "");
    assert_eq!(clean_cmdline("plain"), "plain");
    for raw in ["x\0y\0", " a\r\nb ", "\0\0", "\t tab\0 \n"] {
        let expected = raw.trim().replace('\0', " ").replace('\n', "").replace('\r', "");
        assert_eq!(clean_cmdline(raw), expected);
    }
}

#[test]
fn euid_is_the_last_captured_number() {
    assert_eq!(euid_from_captures(&captures(&[])), Some(0));
    assert_eq!(euid_from_captures(&captures(&[Some("1000")])), Some(1000));
    assert_eq!(euid_from_captures(&captures(&[Some("1"), Some("2"), Some("3")])), Some(3));
    assert_eq!(euid_from_captures(&captures(&[Some("4294967295")])), Some(u32::MAX));
}

#[test]
fn euid_is_refused_when_a_capture_writes_no_number() {
    assert_eq!(euid_from_captures(&captures(&[Some("4294967296")])), None);
    assert_eq!(euid_from_captures(&captures(&[Some("12"), None])), None);
    assert_eq!(euid_from_captures(&captures(&[None, Some("12")])), None);
    assert_eq!(euid_from_captures(&captures(&[Some("x"), Some("12")])), None);
    assert_eq!(euid_from_captures(&captures(&[Some("\u{661}")])), None);
}

#[test]
fn metadata_takes_the_third_uid_of_the_status_text() {
    let s = snapshot(42, Some(&status("1000\t1001\t1002\t1003")), Some("sleep\x0060\0"));
    let process = ProcessScanner::get_process_metadata(&s).unwrap();
    assert_eq!(process, Process { pid: 42, euid: 1002, cmdline: "sleep 60 ".to_string() });
}

#[test]
fn metadata_picks_its_number_out_of_the_line() {
    // The search must pick the third id, not echo the text it was given.
    let s = snapshot(7, Some("Uid:\t5\t6\t7\t8\n"), Some("x"));
    assert_eq!(ProcessScanner::get_process_metadata(&s).unwrap().euid, 7);
    let s = snapshot(7, Some("Uid:\t0\t0\t33\t34\n"), Some("x"));
    assert_eq!(ProcessScanner::get_process_metadata(&s).unwrap().euid, 33);
}

#[test]
fn metadata_falls_back_when_files_are_missing() {
    let process = ProcessScanner::get_process_metadata(&snapshot(9, None, None)).unwrap();
    assert_eq!(process, Process { pid: 9, euid: 0, cmdline: "???".to_string() });
    let no_uid = ProcessScanner::get_process_metadata(&snapshot(9, Some("Name:\tx\n"), Some("")));
    assert_eq!(no_uid, Some(Process { pid: 9, euid: 0, cmdline: String::new() }));
}

#[test]
fn metadata_takes_the_last_uid_line() {
    let text = "Uid:\t1\t2\t3\t4\nUid:\t10\t20\t30\t40\n";
    let process = ProcessScanner::get_process_metadata(&snapshot(1, Some(text), Some("a"))).unwrap();
    assert_eq!(process.euid, 30);
}

#[test]
fn metadata_needs_tabs_between_the_numbers() {
    let process =
        ProcessScanner::get_process_metadata(&snapshot(1, Some("Uid: 1 2 3 4\n"), Some("a")));
    assert_eq!(process.unwrap().euid, 0);
}

#[test]
fn metadata_is_refused_for_a_uid_that_does_not_fit() {
    let text = "Uid:\t1\t2\t99999999999\t4\n";
    assert_eq!(ProcessScanner::get_process_metadata(&snapshot(1, Some(text), Some("a"))), None);
}

#[test]
fn process_of_builds_from_what_the_search_found() {
    let s = snapshot(3, Some("ignored"), Some("run\0"));
    assert_eq!(
        ProcessScanner::process_of(&s, Some(captures(&[Some("12")]))),
        Some(Process { pid: 3, euid: 12, cmdline: "run ".to_string() })
    );
    assert_eq!(
        ProcessScanner::process_of(&s, Some(captures(&[]))),
        Some(Process { pid: 3, euid: 0, cmdline: "run ".to_string() })
    );
    assert_eq!(ProcessScanner::process_of(&s, None), None);
    assert_eq!(ProcessScanner::process_of(&s, Some(captures(&[Some("no")]))), None);
}

#[test]
fn new_enters_every_snapshot() {
    let scanner = ProcessScanner::new(&vec![
        snapshot(1, Some(&status("0\t0\t0\t0")), Some("/sbin/init\0")),
        snapshot(42, Some(&status("1000\t1000\t1000\t1000")), Some("sleep\x0060\0")),
        snapshot(43, None, None),
    ]);
    assert_eq!(scanner.len(), 3);
    assert!(scanner.contains(1));
    assert!(scanner.contains(42));
    assert!(!scanner.contains(2));
    assert_eq!(
        scanner.get(42),
        Some(&Process { pid: 42, euid: 1000, cmdline: "sleep 60 ".to_string() })
    );
    assert_eq!(scanner.get(43), Some(&Process { pid: 43, euid: 0, cmdline: "???".to_string() }));
    assert_eq!(scanner.get(2), None);
}

#[test]
fn new_lets_a_later_snapshot_replace_an_earlier_one() {
    let scanner = ProcessScanner::new(&vec![
        snapshot(5, None, Some("old")),
        snapshot(5, None, Some("new")),
    ]);
    assert_eq!(scanner.len(), 1);
    assert_eq!(scanner.get(5).unwrap().cmdline, "new");
}

#[test]
fn new_of_nothing_is_empty() {
    let scanner = ProcessScanner::new(&Vec::new());
    assert_eq!(scanner.len(), 0);
    assert!(!scanner.contains(1));
}

#[test]
fn unknown_pids_are_those_not_in_the_table() {
    let scanner = ProcessScanner::new(&vec![snapshot(1, None, None), snapshot(3, None, None)]);
    assert_eq!(scanner.unknown_pids(&vec![1, 2, 3, 4, 2]), vec![2, 4, 2]);
    assert_eq!(scanner.unknown_pids(&vec![3, 1]), Vec::<u32>::new());
    assert_eq!(scanner.unknown_pids(&Vec::new()), Vec::<u32>::new());
}

#[test]
fn refresh_enters_only_what_is_new() {
    let mut scanner = ProcessScanner::new(&vec![snapshot(1, None, Some("init"))]);
    let added = scanner.refresh(&vec![
        snapshot(1, None, Some("changed")),
        snapshot(7, Some("Uid:\t0\t0\t33\t0\n"), Some("httpd\0")),
        snapshot(8, Some("Uid:\t0\t0\t99999999999\t0\n"), Some("odd")),
        snapshot(7, None, Some("again")),
        snapshot(9, None, None),
    ]);
    assert_eq!(added, vec![7, 9]);
    assert_eq!(scanner.len(), 3);
    assert_eq!(scanner.get(1).unwrap().cmdline, "init");
    assert_eq!(scanner.get(7), Some(&Process { pid: 7, euid: 33, cmdline: "httpd ".to_string() }));
    assert!(!scanner.contains(8));
    assert_eq!(scanner.get(9).unwrap().cmdline, "???");
}

#[test]
fn refresh_with_nothing_new_changes_nothing() {
    let mut scanner = ProcessScanner::new(&vec![snapshot(1, None, Some("init"))]);
    assert_eq!(scanner.refresh(&Vec::new()), Vec::<u32>::new());
    assert_eq!(scanner.refresh(&vec![snapshot(1, None, None)]), Vec::<u32>::new());
    assert_eq!(scanner.len(), 1);
    assert_eq!(scanner.get(1).unwrap().cmdline, "init");
}
