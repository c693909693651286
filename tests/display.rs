use greprs::display::{decimal_string, DisplayContext, DisplayTerminal, Format};
use greprs::grep::Record;
use greprs::matcher::Match;
use greprs::writer::BufferedWriter;

type Range = std::ops::Range<usize>;

fn rich(colour: bool) -> Format {
    Format::Rich {
        colour,
        match_only: false,
        no_path: false,
        no_lno: false,
    }
}

fn check(
    width: usize,
    len: usize,
    needle: Range,
    start: usize,
    end: usize,
    prefix: bool,
    suffix: bool,
) {
    // The prefix `/:0: ` (path, separator, number, separator, space) takes
    // five columns: one more column leaves the line the same room.
    let room = width + 1;
    let prefix = if prefix { "[...] " } else { "" };
    let suffix = if suffix { " [...]" } else { "" };
    let needle_len = needle.end - needle.start;
    let preambule = "/:0: ";
    let formated = format!(
        "{}{}{}{}{}{}",
        preambule,
        prefix,
        "-".repeat(start),
        "-".repeat(needle_len),
        "-".repeat(end),
        suffix,
    );
    assert_eq!(
        formated,
        rich(false).format(
            room,
            "/",
            Some(DisplayContext::new(
                0,
                "-".repeat(len),
                vec![Match::new(needle.start, needle.end)]
            ))
        ),
    );
    assert_eq!(
        if len < room - preambule.len() {
            len + preambule.len()
        } else if needle_len > width {
            needle_len + preambule.len()
        } else {
            room
        },
        formated.len()
    );
}

#[test]
fn terminal_format() {
    check(40, 80, Range { start: 4, end: 5 }, 4, 25, false, true);
    check(40, 80, Range { start: 64, end: 65 }, 14, 15, true, false);
    check(40, 80, Range { start: 34, end: 45 }, 7, 6, true, true);
    check(40, 80, Range { start: 4, end: 45 }, 0, 0, false, false);
    check(40, 80, Range { start: 4, end: 75 }, 0, 0, false, false);
    check(120, 80, Range { start: 4, end: 75 }, 4, 5, false, false);
    check(40, 80, Range { start: 0, end: 80 }, 0, 0, false, false);
    check(120, 80, Range { start: 0, end: 80 }, 0, 0, false, false);
    check(40, 80, Range { start: 10, end: 80 }, 0, 0, false, false);
    check(120, 80, Range { start: 10, end: 80 }, 10, 0, false, false);
    check(120, 80, Range { start: 0, end: 70 }, 0, 10, false, false);
}

#[test]
fn window_cuts_between_characters() {
    // Each `é` takes two bytes: the cut slides to the next boundary.
    let line = "é".repeat(40) + "X" + &"é".repeat(40);
    let start = 80;
    let out = Format::Rich {
        colour: false,
        match_only: false,
        no_path: true,
        no_lno: true,
    }
    .format(
        23,
        "/",
        Some(DisplayContext::new(1, line, vec![Match::new(start, start + 1)])),
    );
    assert_eq!(out, "[...] ééXéé [...]");
    assert!(out.starts_with("[...] "));
    assert!(out.ends_with(" [...]"));
    assert!(out.contains('X'));
    assert!(out.chars().all(|c| c == 'é' || c == 'X' || "[. ]".contains(c)));
}

#[test]
fn several_matches_are_all_shown() {
    let out = rich(false).format(
        10,
        "f",
        Some(DisplayContext::new(
            3,
            "ab ab ab".to_string(),
            vec![Match::new(0, 2), Match::new(3, 5)],
        )),
    );
    assert_eq!(out, "f:3: ab ab ab");
}

#[test]
fn match_only_prints_each_match() {
    let format = Format::Rich {
        colour: false,
        match_only: true,
        no_path: false,
        no_lno: false,
    };
    let out = format.format(
        80,
        "f",
        Some(DisplayContext::new(
            12,
            "one two one".to_string(),
            vec![Match::new(0, 3), Match::new(8, 11)],
        )),
    );
    assert_eq!(out, "f:12: one\nf:12: one");
}

#[test]
fn prefix_pieces_can_be_left_out() {
    let no_path = Format::Rich {
        colour: false,
        match_only: false,
        no_path: true,
        no_lno: false,
    };
    let ctx = || DisplayContext::with_lno_separator(7, "text".to_string(), vec![], "-");
    assert_eq!(no_path.format(80, "f", Some(ctx())), "7- text");
    let bare = Format::Rich {
        colour: false,
        match_only: false,
        no_path: true,
        no_lno: true,
    };
    assert_eq!(bare.format(80, "f", Some(ctx())), "text");
    assert_eq!(rich(false).format(80, "f", Some(ctx())), "f-7- text");
}

#[test]
fn path_only_and_colours() {
    assert_eq!(Format::PathOnly { colour: false }.format(80, "a/b", None), "a/b");
    let coloured = Format::PathOnly { colour: true }.format(80, "a/b", None);
    assert_ne!(coloured, "a/b");
    assert!(coloured.contains("a/b"));
    assert!(coloured.contains('\u{1b}'));
    assert_eq!(rich(false).file_separator(), "--");
    assert_eq!(rich(false).match_separator(), "..");
    assert_eq!(coloured, "\u{1b}[34ma/b\u{1b}[0m");
    assert_eq!(rich(true).file_separator(), "\u{1b}[38;5;203m--\u{1b}[0m");
    assert_eq!(rich(true).match_separator(), "\u{1b}[38;5;120m..\u{1b}[0m");
}

#[test]
fn decimal_numbers() {
    assert_eq!(decimal_string(0), "0");
    assert_eq!(decimal_string(7), "7");
    assert_eq!(decimal_string(1234567890), "1234567890");
}

#[test]
fn terminal_shows_paths_below_the_root() {
    let term = DisplayTerminal::new(
        80,
        Format::PathOnly { colour: false },
        Some("/home/u/proj".to_string()),
        "./".to_string(),
    );
    assert_eq!(term.path_text("/home/u/proj/src/a.rs"), "./src/a.rs");
    assert_eq!(term.path_text("/home/u/proj"), "./");
    let mut out = BufferedWriter::new();
    term.render(
        "/home/u/proj/x",
        &vec![Record::Path, Record::MatchSeparator],
        &mut out,
    );
    assert_eq!(out.lines(), &vec!["./x".to_string(), "..".to_string()]);
}
