use csearch::files::{
    batches, collect_files, cut_batch, git_list, is_hidden, judge, sift, skip_name, BuildOptions, Found,
    GitList, Verdict,
};
use csearch::paths::{
    canonical_string, default_index_path, find_local_index, find_repo_root, resolve_index_path,
    strip_verbatim, INDEX_FILE_NAME,
};
use csearch::order::path_order;
use csearch::plan::{build_options, choose_index, nothing_to_index, over_limit, summary};
use csearch::roots::{collapse_roots, is_within, resolve_roots, same_root};
use csearch::write::Stats;

#[test]
fn within_respects_separators() {
    assert!(is_within(r"C:\code\sub", r"C:\code"));
    assert!(is_within("/home/u/proj/sub", "/home/u/proj"));
    assert!(is_within(r"C:\code", r"C:\code"));
    assert!(is_within(r"C:\code", r"C:\")); // a drive root ends in a separator
    assert!(!is_within(r"C:\code-other", r"C:\code"));
    assert!(!is_within(r"E:\pro", r"C:\code"));
    assert!(!is_within("/a", "/a/b"));
}

#[test]
fn collapse_drops_nested_roots() {
    let (kept, dropped) = collapse_roots(vec![
        "/a/b/c".into(),
        "/a/b".into(),
        "/a/bc".into(),
        "/a/b".into(),
        "/x".into(),
    ]);
    assert_eq!(kept, vec!["/a/b", "/a/bc", "/x"]);
    assert_eq!(dropped, vec![("/a/b/c".to_string(), "/a/b".to_string())]);
}

#[test]
fn within_is_transitive() {
    let paths = ["/", "/a", "/a/", "/a/b", "/a/b/c", "/ab", "C:\\", "C:\\x"];
    for a in paths {
        assert!(is_within(a, a));
        for b in paths {
            for c in paths {
                assert!(!is_within(a, b) || !is_within(b, c) || is_within(a, c), "{a} {b} {c}");
            }
        }
    }
}

fn s(text: &str) -> String {
    text.to_string()
}

#[test]
fn resolve_roots_tolerates_vanished_and_removes() {
    let stored = vec![(s("/t/keep"), true), (s("/t/gone"), false)];
    let plan = resolve_roots(&stored, &[(s("/t/add"), true)], &[], false).unwrap();
    assert_eq!(plan.roots, vec!["/t/add", "/t/keep"]);
    assert_eq!(plan.notes, vec!["/t/gone: no longer exists, dropped from the index"]);

    let plan = resolve_roots(&stored, &[], &[(Some(s("/t/keep")), s("keep"))], false).unwrap();
    assert!(plan.roots.is_empty(), "{:?}", plan.roots);
    assert!(plan.notes.iter().any(|n| n.ends_with(": removed")), "{:?}", plan.notes);

    // Removing something never indexed is noted, not fatal.
    let plan = resolve_roots(&stored, &[], &[(None, s(r"\\?\C:\add"))], false).unwrap();
    assert_eq!(plan.notes[0], r"C:\add: not in the index");

    // Paths named on the command line must exist.
    let e = resolve_roots(&stored, &[(s("/ok"), true), (s("/t/gone"), false)], &[], false);
    assert_eq!(e.unwrap_err(), "/t/gone: not a directory");
}

#[test]
fn roots_compare_without_trailing_separators() {
    assert!(same_root("/a/b/", "/a/b", false));
    assert!(same_root("C:\\x\\\\", "C:\\x/", false));
    assert!(!same_root("/A", "/a", false));
    assert!(same_root("C:\\CODE", "c:\\code\\", true));
    assert!(!same_root("/\u{c4}", "/\u{e4}", true));
}

#[test]
fn resolution_precedence() {
    let probes = |near: bool, far: bool| vec![(s("/w/p/.csearchindex"), near), (s("/w/.csearchindex"), far)];
    let home = || Some(s("/home/.csearchindex"));
    let here = || s("./.csearchindex");
    // Nothing local: the home default.
    assert_eq!(resolve_index_path(None, probes(false, false), home(), here()), "/home/.csearchindex");
    // A project index above the working directory wins over home.
    assert_eq!(resolve_index_path(None, probes(false, true), home(), here()), "/w/.csearchindex");
    // When two are stacked, the nearest wins.
    assert_eq!(resolve_index_path(None, probes(true, true), home(), here()), "/w/p/.csearchindex");
    // The environment overrides everything, even a local index.
    assert_eq!(resolve_index_path(Some(s("/e")), probes(true, true), home(), here()), "/e");
    assert_eq!(resolve_index_path(None, Vec::new(), None, here()), "./.csearchindex");
    assert_eq!(find_local_index(probes(false, true)), Some(s("/w/.csearchindex")));
    assert_eq!(INDEX_FILE_NAME, ".csearchindex");
}

#[test]
fn the_environment_names_the_index() {
    let probes = || vec![(s("/w/.csearchindex"), false)];
    let named = |empty: bool| Some((s("/e"), empty));
    let (home, profile) = (|| Some(s("/h")), || Some(s("/u")));
    assert_eq!(default_index_path(named(false), probes(), home(), profile(), s(".")), "/e");
    // An empty override counts as unset, and $HOME goes before $USERPROFILE.
    assert_eq!(default_index_path(named(true), probes(), home(), profile(), s(".")), "/h");
    assert_eq!(default_index_path(None, probes(), None, profile(), s(".")), "/u");
    assert_eq!(default_index_path(None, probes(), None, None, s(".")), ".");
    let near = vec![(s("/w/.csearchindex"), true)];
    assert_eq!(default_index_path(named(true), near, home(), None, s(".")), "/w/.csearchindex");
}

#[test]
fn repo_root_is_the_nearest_dot_git() {
    let probes = vec![(s("/r/a/b"), false), (s("/r/a"), false), (s("/r"), true), (s("/"), true)];
    assert_eq!(find_repo_root(probes), Some(s("/r")));
    assert_eq!(find_repo_root(vec![(s("/"), false)]), None);
}

#[test]
fn verbatim_prefixes_are_dropped() {
    assert_eq!(strip_verbatim(r"\\?\C:\x"), r"C:\x");
    assert_eq!(strip_verbatim(r"\\?\UNC\srv\share"), r"\\srv\share");
    assert_eq!(strip_verbatim("/home/\u{e9}"), "/home/\u{e9}");
    assert_eq!(canonical_string::<u8>(Ok(s(r"\\?\C:\x"))), Ok(s(r"C:\x")));
    assert_eq!(canonical_string::<u8>(Err(7)), Err(7));
}

#[test]
fn names_that_are_passed_over() {
    for n in [".git", "#x#", "~tmp", "file~"] {
        assert!(skip_name(n), "{n}");
    }
    for n in ["a.rs", "", "x~y", "a#"] {
        assert!(!skip_name(n), "{n}");
    }
    assert!(is_hidden(&[s("a"), s(".github"), s("b")]));
    assert!(!is_hidden(&[s("."), s("a"), s("b")]));
    assert!(!is_hidden(&[]));
}

#[test]
fn verdicts_on_files() {
    assert_eq!(judge(false, Some((true, 16)), 16), Verdict::Keep);
    assert_eq!(judge(false, Some((true, 17)), 16), Verdict::TooLarge);
    assert_eq!(judge(false, Some((false, 1)), 16), Verdict::Ignore);
    assert_eq!(judge(true, Some((true, 17)), 16), Verdict::Ignore);
    assert_eq!(judge(false, None, 16), Verdict::Ignore);
}

#[test]
fn files_are_sifted() {
    let seen = vec![
        ("a", false, Some((true, 5))),
        ("b", false, Some((true, 17))),
        (".c", true, Some((true, 1))),
        ("d", false, None),
        ("e", false, Some((true, 16))),
    ];
    assert_eq!(sift(seen, 16), (vec![("a", 5), ("e", 16)], vec![("b", 17)]));
}

fn components(path: &str) -> Vec<Vec<u8>> {
    path.split('/').map(|c| c.as_bytes().to_vec()).collect()
}

#[test]
fn paths_come_in_order_of_their_components() {
    let paths: Vec<_> =
        ["a-b", "a/c", "a", "B", "a/c", "a/b/z", "\u{e9}"].iter().map(|p| components(p)).collect();
    // `a/c` goes before `a-b`: components are compared, not whole strings.
    assert_eq!(path_order(&paths), vec![3, 2, 5, 1, 4, 0, 6]);
    assert_eq!(path_order(&[]), Vec::<usize>::new());
}

#[test]
fn files_are_collected_in_path_order() {
    let seen = |path: &'static str, hidden: bool, file: Option<(bool, u64)>| {
        (Found { path, components: components(path) }, hidden, file)
    };
    let (files, large) = collect_files(
        vec![
            seen("r/z", false, Some((true, 3))),
            seen("r/big", false, Some((true, 64))),
            seen("r/.x", true, Some((true, 1))),
            seen("r/link", false, Some((false, 1))),
            seen("r/gone", false, None),
            seen("r/a/b", false, Some((true, 16))),
            seen("r/a-b", false, Some((true, 2))),
        ],
        16,
    );
    let names: Vec<_> = files.iter().map(|(f, n)| (f.path, *n)).collect();
    assert_eq!(names, vec![("r/a/b", 16), ("r/a-b", 2), ("r/z", 3)]);
    let names: Vec<_> = large.iter().map(|(f, n)| (f.path, *n)).collect();
    assert_eq!(names, vec![("r/big", 64)]);
}

#[test]
fn git_answers() {
    match git_list(Some((true, b"a.rs\0dir/b.rs\0\0", b""))) {
        GitList::Files(f) => assert_eq!(f, vec![vec![s("a.rs")], vec![s("dir"), s("b.rs")]]),
        other => panic!("{other:?}"),
    }
    let not = b"fatal: not a git repository (or any of the parent directories): .git\n";
    assert!(matches!(git_list(Some((false, b"", not))), GitList::NotARepo));
    match git_list(Some((false, b"", b"  fatal: dubious ownership\n"))) {
        GitList::Unavailable(m) => assert_eq!(m, "fatal: dubious ownership"),
        other => panic!("{other:?}"),
    }
    match git_list(None) {
        GitList::Unavailable(m) => assert_eq!(m, "git could not be run"),
        other => panic!("{other:?}"),
    }
}

#[test]
fn batches_hold_what_fits() {
    let sizes = [50, 30, 20, 1, 500, 1];
    assert_eq!(cut_batch(&sizes, 0, 100), 3);
    assert_eq!(cut_batch(&sizes, 3, 100), 4);
    assert_eq!(cut_batch(&sizes, 4, 100), 5);
    assert_eq!(cut_batch(&sizes, 5, 0), 6);
    assert_eq!(cut_batch(&[u64::MAX, 1], 0, u64::MAX), 1);
    assert_eq!(batches(&sizes, 100), vec![(0, 3), (3, 4), (4, 5), (5, 6)]);
    assert_eq!(batches(&sizes, u64::MAX), vec![(0, 6)]);
    assert_eq!(batches(&[], 100), vec![]);
}

#[test]
fn options_and_messages() {
    let d = BuildOptions::default();
    assert_eq!((d.batch_bytes, d.max_file_bytes), (256 << 20, 1 << 30));
    let o = build_options(true, 2, false, true, false);
    assert_eq!((o.verbose, o.batch_bytes, o.git), (true, 2 << 20, true));
    assert!(!build_options(false, 2, false, true, true).git);
    assert_eq!(choose_index(Some(1), Some(2), 3), 1);
    assert_eq!(choose_index(None, Some(2), 3), 2);
    assert_eq!(choose_index(None, None, 3), 3);
    assert_eq!(nothing_to_index(1, 0, "i"), None);
    assert_eq!(nothing_to_index(0, 0, "i").unwrap(), "no paths given and no existing index at i");
    assert_eq!(
        nothing_to_index(0, 2, "i").unwrap(),
        "no roots left to index; use --reset to delete the index"
    );
    let st = Stats { files_indexed: 12, files_skipped: 3, index_bytes: 4096, ..Default::default() };
    assert_eq!(
        summary(&st),
        "cindex: 12 files indexed (3 skipped), 0 trigrams, 0 posting entries, index 4096 bytes"
    );
    assert_eq!(over_limit("/f", 64, 16), "cindex: /f: 64 bytes is over the 16-byte limit, skipping");
}
