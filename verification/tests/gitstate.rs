use csearch::gitstate::{
    current_head, current_state, fnv1a, is_current, read_stamp, staleness, stamp_path, write_stamp,
    RootState,
};
use csearch::hooks::{exclude_index, hook_names, may_install, may_uninstall, HOOK_TEXT};

fn state(root: &str, head: &str, dirty: u64) -> RootState {
    RootState { root: root.to_string(), head: head.to_string(), dirty }
}

#[test]
fn stamp_roundtrips() {
    // A stamp written by hand reads back intact, including a root path
    // containing spaces.
    let text = "csearch-rs stamp 1\ndeadbeef\t42\tC:\\code\\my project\n";
    let got = read_stamp(Some(text));
    assert_eq!(got.len(), 1);
    assert_eq!(got[0].head, "deadbeef");
    assert_eq!(got[0].dirty, 42);
    assert_eq!(got[0].root, r"C:\code\my project");
    assert_eq!(write_stamp(&got).unwrap(), text);
}

#[test]
fn a_missing_or_foreign_stamp_reads_empty() {
    assert!(read_stamp(None).is_empty()); // no sidecar
    assert!(read_stamp(Some("something else\n")).is_empty()); // wrong header
}

#[test]
fn dirty_fingerprint_changes_with_content() {
    assert_ne!(fnv1a(b" M a.rs\n"), fnv1a(b" M b.rs\n"));
    assert_eq!(fnv1a(b""), fnv1a(b""));
}

#[test]
fn fingerprint_is_fnv1a() {
    assert_eq!(fnv1a(b""), 0xcbf2_9ce4_8422_2325);
    assert_eq!(fnv1a(b"a"), 0xaf63_dc4c_8601_ec8c);
    assert_eq!(fnv1a(b"foobar"), 0x8594_4171_f739_67e8);
}

#[test]
fn stamps_give_back_what_was_written() {
    let states = vec![state("/a b\tc", "12ab", u64::MAX), state("/x", "", 0)];
    let text = write_stamp(&states).unwrap();
    assert_eq!(read_stamp(Some(&text)), states);
    assert_eq!(write_stamp(&[]), None);
}

#[test]
fn damaged_lines_are_passed_over() {
    let text = "csearch-rs stamp 1\r\nh\t+7\tr\r\nh\t7\nh\tx\tr\nh\t\tr\nh\t18446744073709551616\tr\nh\t1\t\nlast\t2\tq";
    let got = read_stamp(Some(text));
    assert_eq!(got, vec![state("r", "h", 7), state("", "h", 1), state("q", "last", 2)]);
}

#[test]
fn state_of_a_root() {
    let st = current_state("/r", Some(b"abc\n"), Some(b"")).unwrap();
    assert_eq!(st, state("/r", "abc", fnv1a(b"")));
    assert_eq!(current_state("/r", None, Some(b"")), None);
    assert_eq!(current_state("/r", Some(b"abc"), None), None);
    assert_eq!(current_head(Some(b" abc\r\n")), Some("abc".to_string()));
    assert_eq!(current_head(None), None);
    assert_eq!(stamp_path("/x/.csearchindex"), "/x/.csearchindex.meta");
}

#[test]
fn current_only_while_nothing_changed() {
    let stamped = vec![state("/a", "1", 5), state("/b", "2", 6)];
    let now = |h: &str, d: u64| {
        vec![
            ("/b".to_string(), Some(state("/b", "2", 6))),
            ("/a".to_string(), Some(state("/a", h, d))),
        ]
    };
    assert!(is_current(&stamped, &now("1", 5)));
    assert!(!is_current(&stamped, &now("3", 5)));
    assert!(!is_current(&stamped, &now("1", 4)));
    assert!(!is_current(&stamped, &now("1", 5)[..1]));
    assert!(!is_current(&[], &[]));
    let mut unknown = now("1", 5);
    unknown[1].1 = None;
    assert!(!is_current(&stamped, &unknown));
    let mut other = now("1", 5);
    other[0].0 = "/c".to_string();
    assert!(!is_current(&stamped, &other));
    // The stamp must name the same roots: here it names one that is not given.
    let a = || ("/a".to_string(), Some(state("/a", "1", 5)));
    assert!(!is_current(&stamped, &[a(), a()]));
}

#[test]
fn staleness_counts_moved_heads() {
    let stamped = vec![state("/a", "1", 5), state("/b", "2", 6)];
    let head = |s: &str| Some(s.to_string());
    assert_eq!(staleness(&stamped, &[head("1"), None]), None);
    assert_eq!(
        staleness(&stamped, &[head("9"), head("2")]).unwrap(),
        "csearch: the index is behind HEAD in 1 root -- run cindex to refresh"
    );
    assert_eq!(
        staleness(&stamped, &[head("9"), head("8")]).unwrap(),
        "csearch: the index is behind HEAD in 2 roots -- run cindex to refresh"
    );
}

#[test]
fn hooks_leave_others_alone() {
    assert_eq!(hook_names(), vec!["post-checkout", "post-merge", "post-commit", "post-rewrite"]);
    assert!(HOOK_TEXT.contains("csearch-rs"));
    assert!(HOOK_TEXT.contains("--if-changed") && HOOK_TEXT.contains("--background"));
    assert!(may_install(None));
    assert!(may_install(Some(HOOK_TEXT)));
    assert!(!may_install(Some("#!/bin/sh\necho not ours\n")));
    assert!(!may_uninstall(None));
    assert!(may_uninstall(Some(HOOK_TEXT)));
    assert!(!may_uninstall(Some("#!/bin/sh\necho not ours\n")));
}

#[test]
fn the_index_is_excluded_once() {
    assert_eq!(exclude_index("").unwrap(), ".csearchindex\n");
    assert_eq!(exclude_index("*.o").unwrap(), "\n.csearchindex\n");
    let line = exclude_index("*.o\n").unwrap();
    assert_eq!(line, ".csearchindex\n");
    assert_eq!(exclude_index(&format!("*.o\n{line}")), None);
    assert_eq!(exclude_index("a\r\n  .csearchindex \r\nb\r\n"), None);
}
