use greprs::filters::Filters;
use greprs::patterns::Patterns;
use greprs::walk::{
    log_level, merge_outputs, plan_entries, sort_tasks, symlink_verdict, Entry, EntryKind,
    FileTask, LogLevel, SymlinkVerdict,
};
use greprs::writer::BufferedWriter;

fn buffer(lines: &[&str]) -> BufferedWriter {
    let mut w = BufferedWriter::new();
    for l in lines {
        w.push_line(l);
    }
    w
}

#[test]
fn separators_only_between_outputs() {
    let outputs = vec![buffer(&[]), buffer(&["a1", "a2"]), buffer(&[]), buffer(&["b1"])];
    let mut printed = false;
    let mut out = BufferedWriter::new();
    merge_outputs(&outputs, true, &mut printed, "--", &mut out);
    assert_eq!(out.lines(), &vec!["a1", "a2", "--", "b1"]);
    assert!(printed);
    let more = vec![buffer(&["c1"])];
    merge_outputs(&more, true, &mut printed, "--", &mut out);
    assert_eq!(out.lines(), &vec!["a1", "a2", "--", "b1", "--", "c1"]);
}

#[test]
fn no_separators_when_off() {
    let outputs = vec![buffer(&["a"]), buffer(&["b"])];
    let mut printed = false;
    let mut out = BufferedWriter::new();
    merge_outputs(&outputs, false, &mut printed, "--", &mut out);
    assert_eq!(out.lines(), &vec!["a", "b"]);
    assert!(!printed);
}

#[test]
fn buffered_writer_flushes_in_order() {
    let w = buffer(&["x", "y"]);
    assert!(w.has_some());
    assert!(!BufferedWriter::new().has_some());
    let mut target = buffer(&["w"]);
    w.flush(&mut target);
    assert_eq!(target.lines(), &vec!["w", "x", "y"]);
}

#[test]
fn symlink_loops_and_escapes() {
    let parents = vec!["/".to_string(), "/r".to_string(), "/r/sub".to_string()];
    assert!(symlink_verdict("/r", &parents) == SymlinkVerdict::Loop(1));
    assert!(symlink_verdict("/r/sub/x", &parents) == SymlinkVerdict::Follow);
    let parents = vec!["/r".to_string(), "/r/a".to_string()];
    assert!(symlink_verdict("/r", &parents) == SymlinkVerdict::Loop(0));
    assert!(symlink_verdict("/", &parents) == SymlinkVerdict::Escape);
    assert!(symlink_verdict("/r/b", &parents) == SymlinkVerdict::Follow);
    let parents = vec!["/r".to_string()];
    assert!(symlink_verdict("/rx", &parents) == SymlinkVerdict::Follow);
    assert!(symlink_verdict("/s/t", &parents) == SymlinkVerdict::Follow);
}

#[test]
fn verbosity_levels() {
    assert!(log_level(-1) == LogLevel::Off);
    assert!(log_level(0) == LogLevel::Error);
    assert!(log_level(1) == LogLevel::Warn);
    assert!(log_level(2) == LogLevel::Info);
    assert!(log_level(3) == LogLevel::Debug);
    assert!(log_level(4) == LogLevel::Trace);
    assert!(log_level(127) == LogLevel::Trace);
}

#[test]
fn files_are_sorted_by_path() {
    let tasks = vec![
        FileTask { path: "/d/b.txt".to_string(), len: 2 },
        FileTask { path: "/d/a.txt".to_string(), len: 1 },
        FileTask { path: "/d/B.txt".to_string(), len: 3 },
        FileTask { path: "/d/a".to_string(), len: 4 },
    ];
    let sorted = sort_tasks(tasks);
    let paths: Vec<&str> = sorted.iter().map(|t| t.path.as_str()).collect();
    assert_eq!(paths, vec!["/d/B.txt", "/d/a", "/d/a.txt", "/d/b.txt"]);
    let lens: Vec<usize> = sorted.iter().map(|t| t.len).collect();
    assert_eq!(lens, vec![3, 4, 1, 2]);
    assert!(sort_tasks(vec![]).is_empty());
}

#[test]
fn entries_are_planned() {
    let force = Patterns::new("/r", &[".git/".to_string()]);
    let patterns = Patterns::new("/r", &["*.log".to_string()]);
    let filters = Filters::new(&["*.rs".to_string(), "*.log".to_string()]).unwrap();
    let entry = |path: &str, kind: EntryKind, len: usize| Entry {
        path: path.to_string(),
        kind,
        len,
    };
    let entries = vec![
        entry("/r/.gitignore", EntryKind::File, 6),
        entry("/r/.git", EntryKind::Dir, 0),
        entry("/r/src", EntryKind::Dir, 0),
        entry("/r/main.rs", EntryKind::File, 10),
        entry("/r/debug.log", EntryKind::File, 5),
        entry("/r/notes.txt", EntryKind::File, 7),
        entry("/r/link", EntryKind::Symlink, 0),
    ];
    let (dive, grep) = plan_entries(&force, &patterns, &filters, entries);
    let dive: Vec<&str> = dive.iter().map(|e| e.path.as_str()).collect();
    assert_eq!(dive, vec!["/r/src", "/r/link"]);
    let grep: Vec<(&str, usize)> = grep.iter().map(|t| (t.path.as_str(), t.len)).collect();
    assert_eq!(grep, vec![("/r/main.rs", 10)]);
}
