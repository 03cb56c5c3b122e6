use yaff::config::{parse_config_text, Config};
use yaff::engine::{
    classify, compile, is_up_to_date, join_path, Action, Build, DirNode, Entry, EntryKind,
    FileKind, FileReport, Listing, Visit,
};
use yaff::text::ends_with;

fn file(name: &str, input_modified: i128, output_modified: Option<i128>) -> Entry {
    Entry {
        name: name.to_string(),
        kind: EntryKind::File { input_modified, output_modified },
    }
}

fn dir(name: &str) -> Entry {
    Entry { name: name.to_string(), kind: EntryKind::Directory }
}

fn started(quiet: bool) -> (Build, DirNode) {
    let mut c = Config::defaults();
    if quiet {
        c.insert("quiet".to_string(), "true".to_string());
    }
    let mut b = compile("in", "out", &c);
    let root = b.next_dir().unwrap();
    (b, root)
}

fn work(v: Visit) -> (bool, bool, Vec<Action>) {
    match v {
        Visit::Work { announce, create_output, actions } => (announce, create_output, actions),
        _ => panic!("expected work"),
    }
}

#[test]
fn classification_by_suffix() {
    assert_eq!(classify("app.js"), FileKind::Script);
    assert_eq!(classify("dir/app.js"), FileKind::Script);
    assert_eq!(classify("index.html"), FileKind::Markup);
    assert_eq!(classify("style.css"), FileKind::Generic);
    assert_eq!(classify("README"), FileKind::Generic);
    assert_eq!(classify("APP.JS"), FileKind::Generic);
    assert_eq!(classify("page.html.bak"), FileKind::Generic);
    assert_eq!(classify("js"), FileKind::Generic);
    assert_eq!(classify(".js"), FileKind::Script);
}

#[test]
fn suffix_test_is_exact() {
    assert!(ends_with("a.js", ".js"));
    assert!(!ends_with("a.jsx", ".js"));
    assert!(!ends_with("s", ".js"));
    assert!(ends_with("", ""));
}

#[test]
fn staleness_boundary() {
    assert!(!is_up_to_date(100, Some(100)));
    assert!(is_up_to_date(100, Some(101)));
    assert!(!is_up_to_date(100, Some(99)));
    assert!(!is_up_to_date(100, None));
}

#[test]
fn paths_are_joined_with_a_slash() {
    assert_eq!(join_path("in/sub", "a.js"), "in/sub/a.js");
    assert_eq!(join_path("", "a"), "/a");
}

#[test]
fn start_has_the_root_pending() {
    let c = Config::defaults();
    let mut b = compile("src", "dist", &c);
    let root = b.next_dir().unwrap();
    assert_eq!(root.input, "src");
    assert_eq!(root.output, "dist");
    assert_eq!(root.relative, "");
    assert!(b.next_dir().is_none());
    assert!(b.is_clean());
}

#[test]
fn missing_root_is_fatal_and_creates_nothing() {
    let (mut b, root) = started(false);
    let v = b.visit(&root, Listing::Missing);
    assert!(matches!(v, Visit::Fatal));
    assert!(b.is_fatal());
    assert!(!b.is_clean());
    assert!(b.next_dir().is_none());
    let t = b.tally();
    assert_eq!((t.skipped, t.succeeded, t.failed, t.dirs_failed), (0, 0, 0, 0));
}

#[test]
fn unreadable_directory_is_abandoned() {
    let (mut b, root) = started(false);
    let v = b.visit(&root, Listing::Unreadable);
    assert!(matches!(v, Visit::Abandoned));
    assert!(!b.is_fatal());
    assert_eq!(b.tally().dirs_failed, 1);
}

#[test]
fn each_entry_gets_its_action() {
    let (mut b, root) = started(false);
    let entries = vec![
        dir("sub"),
        file("a.js", 10, None),
        file("b.html", 10, Some(10)),
        file("c.txt", 10, Some(11)),
        Entry { name: "?".to_string(), kind: EntryKind::Unreadable },
        file("README", 10, Some(9)),
    ];
    let (announce, create_output, actions) = work(b.visit(&root, Listing::Entries(entries)));
    assert!(announce);
    assert!(create_output);
    assert_eq!(actions.len(), 6);
    match &actions[0] {
        Action::Descend(n) => {
            assert_eq!(n.input, "in/sub");
            assert_eq!(n.output, "out/sub");
            assert_eq!(n.relative, "/sub");
        }
        _ => panic!("expected descend"),
    }
    match &actions[1] {
        Action::Run { unit, input, output } => {
            assert_eq!(*unit, FileKind::Script);
            assert_eq!(input, "in/a.js");
            assert_eq!(output, "out/a.js");
        }
        _ => panic!("expected run"),
    }
    assert!(matches!(&actions[2], Action::Run { unit: FileKind::Markup, .. }));
    match &actions[3] {
        Action::Skip { input, output } => {
            assert_eq!(input, "in/c.txt");
            assert_eq!(output, "out/c.txt");
        }
        _ => panic!("expected skip"),
    }
    assert!(matches!(&actions[4], Action::Unreadable(4)));
    assert!(matches!(&actions[5], Action::Run { unit: FileKind::Generic, .. }));
    let t = b.tally();
    assert_eq!((t.skipped, t.succeeded, t.failed, t.dirs_failed), (1, 0, 1, 0));
}

#[test]
fn subdirectories_mirror_their_parents() {
    let (mut b, root) = started(true);
    let (announce, _, actions) = work(b.visit(&root, Listing::Entries(vec![dir("a")])));
    assert!(!announce);
    let a = match actions.into_iter().next().unwrap() {
        Action::Descend(n) => n,
        _ => panic!("expected descend"),
    };
    b.dir_made(a, true);
    let a = b.next_dir().unwrap();
    let (_, create_output, actions) = work(b.visit(&a, Listing::Entries(vec![dir("b")])));
    assert!(!create_output);
    match &actions[0] {
        Action::Descend(n) => {
            assert_eq!(n.input, "in/a/b");
            assert_eq!(n.output, "out/a/b");
            assert_eq!(n.relative, "/a/b");
        }
        _ => panic!("expected descend"),
    }
}

#[test]
fn failed_subdirectory_is_left_out() {
    let (mut b, root) = started(false);
    let (_, _, actions) = work(b.visit(&root, Listing::Entries(vec![dir("a")])));
    let a = match actions.into_iter().next().unwrap() {
        Action::Descend(n) => n,
        _ => panic!("expected descend"),
    };
    b.dir_made(a, false);
    assert!(!b.is_fatal());
    assert!(b.next_dir().is_none());
    assert_eq!(b.tally().dirs_failed, 1);
}

#[test]
fn failed_output_root_is_fatal() {
    let (mut b, root) = started(false);
    let _ = work(b.visit(&root, Listing::Entries(vec![])));
    b.dir_made(root, false);
    assert!(b.is_fatal());
    assert_eq!(b.tally().dirs_failed, 1);
}

#[test]
fn created_root_is_not_visited_again() {
    let (mut b, root) = started(false);
    b.dir_made(root, true);
    assert!(b.next_dir().is_none());
    assert!(b.is_clean());
}

#[test]
fn one_failure_does_not_stop_the_others() {
    let (mut b, root) = started(false);
    let entries = vec![file("bad.js", 1, None), file("a.html", 1, None), file("b.png", 1, None)];
    let (_, _, actions) = work(b.visit(&root, Listing::Entries(entries)));
    let mut reports = Vec::new();
    for (i, a) in actions.into_iter().enumerate() {
        match a {
            Action::Run { input, output, .. } => {
                let result = if i == 0 { Err("syntax error".to_string()) } else { Ok(()) };
                reports.push(b.finished(input, output, result));
            }
            _ => panic!("expected run"),
        }
    }
    assert_eq!(reports.len(), 3);
    match &reports[0] {
        FileReport::Failed { input, reason } => {
            assert_eq!(input, "in/bad.js");
            assert_eq!(reason, "syntax error");
        }
        _ => panic!("expected failure"),
    }
    match &reports[1] {
        FileReport::Compiled { input, output } => {
            assert_eq!(input, "in/a.html");
            assert_eq!(output, "out/a.html");
        }
        _ => panic!("expected success"),
    }
    assert!(matches!(&reports[2], FileReport::Compiled { .. }));
    let t = b.tally();
    assert_eq!((t.succeeded, t.failed), (2, 1));
    assert!(!b.is_fatal());
    assert!(!b.is_clean());
}

#[test]
fn quiet_mode_reports_success_silently() {
    let (mut b, _) = started(true);
    let r = b.finished("in/a".to_string(), "out/a".to_string(), Ok(()));
    assert!(matches!(r, FileReport::Silent));
    let r = b.finished("in/b".to_string(), "out/b".to_string(), Err("e".to_string()));
    assert!(matches!(r, FileReport::Failed { .. }));
}

#[test]
fn quiet_from_config_text() {
    let load = parse_config_text("quiet = true\n");
    let mut b = compile("in", "out", &load.config);
    let root = b.next_dir().unwrap();
    let (announce, _, _) = work(b.visit(&root, Listing::Entries(vec![])));
    assert!(!announce);
}

#[test]
fn second_run_on_unchanged_tree_runs_nothing() {
    let (mut b, root) = started(false);
    let entries = vec![file("a.js", 5, Some(6)), file("b.html", 5, Some(7)), file("c", 5, Some(6))];
    let (_, _, actions) = work(b.visit(&root, Listing::Entries(entries)));
    assert!(actions.iter().all(|a| matches!(a, Action::Skip { .. })));
    assert_eq!(b.tally().skipped, 3);
    assert!(b.is_clean());
}
