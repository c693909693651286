use greprs::grep::{
    grep, grep_count, grep_matches_all_lines, grep_matches_once, grep_with_context, Grep, Record,
};
use greprs::lines::{decode_line, split_lines, Zero};
use greprs::matcher::{exact_result, fuzzy_result, Match, Matcher, MatcherOptions};
fn matcher(re: &str, invert: bool) -> Matcher {
    Matcher::new(re, false, invert).unwrap()
}

fn ten_lines_with_match_at_five() -> String {
    (1..=10)
        .map(|i| if i == 5 { "needle".to_string() } else { format!("line {}", i) })
        .collect::<Vec<_>>()
        .join("\n")
}

fn summary(records: &[Record]) -> Vec<String> {
    records
        .iter()
        .map(|r| match r {
            Record::Line(c) => format!("{}{}", c.lno, c.lno_sep),
            Record::Path => "path".to_string(),
            Record::MatchSeparator => "..".to_string(),
        })
        .collect()
}

#[test]
fn context_around_a_single_match() {
    let content = ten_lines_with_match_at_five();
    let m = matcher("needle", false);
    let records = grep_with_context(1, 1)
        .grep_content(&m, content.as_bytes())
        .unwrap();
    assert_eq!(summary(&records), vec!["4-", "5:", "6+"]);
    let records = grep_with_context(0, 0)
        .grep_content(&m, content.as_bytes())
        .unwrap();
    assert_eq!(summary(&records), vec!["5:"]);
}

#[test]
fn context_groups_are_separated() {
    let lines: Vec<String> = (1..=9).map(|i| format!("l{}", i)).collect();
    let hit = |i: usize| if i == 1 || i == 7 { Some(vec![Match::new(0, 2)]) } else { None };
    let hits: Vec<Option<Vec<Match>>> = (0..9).map(hit).collect();
    let records = Grep::WithContext { before: 1, after: 1 }.scan(&lines, &hits);
    assert_eq!(summary(&records), vec!["1-", "2:", "3+", "..", "7-", "8:", "9+"]);
}

#[test]
fn first_match_reports_once() {
    let content = "a\nneedle\nb\nc\nd\ne\nneedle\n";
    let records = grep_matches_once()
        .grep_content(&matcher("needle", false), content.as_bytes())
        .unwrap();
    assert_eq!(summary(&records), vec!["2:"]);
}

#[test]
fn files_without_match() {
    let m = matcher("x", true);
    let all_have = "ax\nbx\n\nxx";
    let records = grep_matches_all_lines()
        .grep_content(&m, all_have.as_bytes())
        .unwrap();
    assert!(records.is_empty());
    let none_have = "a\nb\nc";
    let records = grep_matches_all_lines()
        .grep_content(&m, none_have.as_bytes())
        .unwrap();
    assert_eq!(summary(&records), vec!["path"]);
    let one_lacks = "ax\nb\ncx";
    let records = grep_matches_all_lines()
        .grep_content(&m, one_lacks.as_bytes())
        .unwrap();
    assert!(records.is_empty());
}

#[test]
fn binary_content_is_skipped() {
    let mut content = b"needle\n".to_vec();
    content.push(0);
    content.extend_from_slice(b"\nneedle\n");
    assert!(grep().grep_content(&matcher("needle", false), &content).is_none());
    let mut with_bom = vec![0xef, 0xbb, 0xbf];
    with_bom.extend_from_slice(b"needle\n\0\n");
    assert!(grep().grep_content(&matcher("needle", false), &with_bom).is_none());
    let mut late = vec![b'a'; 1100];
    late.push(0);
    assert!(grep().grep_content(&matcher("needle", false), &late).is_some());
}

#[test]
fn count_reports_matching_lines() {
    let content = "a1\nb\na2 a3\n";
    let records = grep_count()
        .grep_content(&matcher("a", false), content.as_bytes())
        .unwrap();
    match &records[..] {
        [Record::Line(c)] => {
            assert_eq!(c.lno, 2);
            assert_eq!(c.line, "");
        }
        _ => panic!("one count record expected"),
    }
    let records = grep_count()
        .grep_content(&matcher("z", false), content.as_bytes())
        .unwrap();
    assert!(records.is_empty());
}

#[test]
fn plain_reports_every_match() {
    let content = "foo bar foo\r\nbaz\nfoo";
    let records = grep()
        .grep_content(&matcher("foo", false), content.as_bytes())
        .unwrap();
    assert_eq!(summary(&records), vec!["1:", "3:"]);
    match &records[0] {
        Record::Line(c) => {
            assert_eq!(c.line, "foo bar foo");
            assert_eq!(c.needle.len(), 2);
            assert_eq!((c.needle[1].start(), c.needle[1].end()), (8, 11));
        }
        _ => panic!("a line record expected"),
    }
}

#[test]
fn fuzzy_test_short_circuits() {
    let m = matcher("zzz", false);
    let lines = vec!["zzz".to_string()];
    assert!(grep().run(&m, Some("nothing here"), &lines).is_empty());
    assert_eq!(grep().run(&m, None, &lines).len(), 1);
}

#[test]
fn matcher_modes() {
    let m = matcher("o", false);
    let found = m.exact("foo boo", usize::MAX).unwrap();
    assert_eq!(found.len(), 4);
    assert_eq!(m.exact("foo boo", 2).unwrap().len(), 2);
    assert!(m.exact("xyz", usize::MAX).is_none());
    assert!(m.call("xyz", MatcherOptions::Fuzzy).is_none());
    assert!(m.fuzzy("xoz").is_some());
    let inv = matcher("o", true);
    let whole = inv.exact("xyz", usize::MAX).unwrap();
    assert_eq!((whole[0].start(), whole[0].end()), (0, 3));
    assert!(inv.exact("foo", usize::MAX).is_none());
    assert!(inv.fuzzy("foo").is_none());
}

#[test]
fn exact_result_bounds_and_inverts() {
    let found = vec![Match::new(0, 1), Match::new(2, 3), Match::new(4, 5)];
    assert_eq!(exact_result(found.clone(), 2, false, 9).unwrap().len(), 2);
    assert!(exact_result(found, 5, true, 9).is_none());
    let whole = exact_result(vec![], 5, true, 9).unwrap();
    assert_eq!((whole[0].start(), whole[0].end()), (0, 9));
    assert!(exact_result(vec![], 5, false, 9).is_none());
}

#[test]
fn lines_are_split_and_decoded() {
    let lines = split_lines(b"a\r\nb\n\nc");
    assert_eq!(lines, vec!["a", "b", "", "c"]);
    assert_eq!(split_lines(b"x\n"), vec!["x"]);
    assert!(split_lines(b"").is_empty());
    assert_eq!(decode_line(&[0x66, 0xe9]), "f\u{e9}");
    assert_eq!(decode_line("é".as_bytes()), "é");
}

#[test]
fn zero_reader_is_empty() {
    let z = Zero::new("/r/empty".to_string());
    assert_eq!(z.map(), "");
    assert!(z.lines().is_empty());
    let records = grep_matches_all_lines().run(&matcher("x", true), Some(z.map()), &z.lines());
    assert!(records.is_empty());
}

#[test]
fn strategy_constructors() {
    assert!(grep() == Grep::Plain);
    assert!(grep_matches_once() == Grep::FirstMatch);
    assert!(grep_count() == Grep::Count);
    assert!(grep_with_context(2, 3) == Grep::WithContext { before: 2, after: 3 });
}

#[test]
fn fuzzy_result_inverts() {
    let found = fuzzy_result(Some(4), false, 9).unwrap();
    assert_eq!((found[0].start(), found[0].end()), (0, 4));
    assert!(fuzzy_result(Some(4), true, 9).is_none());
    let whole = fuzzy_result(None, true, 9).unwrap();
    assert_eq!((whole[0].start(), whole[0].end()), (0, 9));
    assert!(fuzzy_result(None, false, 9).is_none());
}

#[test]
fn case_flag_and_bad_pattern() {
    let m = Matcher::new("NEEDLE", true, false).unwrap();
    assert_eq!(m.exact("a needle", usize::MAX).unwrap().len(), 1);
    let strict = Matcher::new("NEEDLE", false, false).unwrap();
    assert!(strict.exact("a needle", usize::MAX).is_none());
    assert!(Matcher::new("(", false, false).is_err());
}
