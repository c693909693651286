use greprs::filters::Filters;
use greprs::find_in_string;
use greprs::patterns::Patterns;

#[test]
fn test_find_in_string() {
    let test = |haystack: &str, needle: &str| {
        assert_eq!(haystack.find(needle), find_in_string(haystack, needle));
    };
    test("foozoo", "bar");
    test("foozoo", "zoo");
}

#[test]
fn gitignore() {
    let strings = vec![
        // 0.
        "   ",
        "\\  ",
        " bim  ",
        " bam\\ \\ ",
        // 1.
        "#boom",
        r"\#kaboom",
        // 2.
        "/foo",
        "./zoo",
        "bar/baz",
        "/baz/buz/",
        "/baz/buzz/*",
        "baz/qux/",
        // 3.
        "/zoomzoom*",
        "toto*",
        "*.ro",
        "!totoro",
        r"\!totoro",
        // 5.
        "**/tata",
        "titi/**/titi",
        "tutu/**",
    ]
    .iter()
    .map(|e| e.to_string())
    .collect::<Vec<String>>();
    for root in vec!["/", "/r/"] {
        let patterns = Patterns::new(root, &strings);
        let mkpath = |path| root.to_owned() + path;

        for is_dir in vec![true, false] {
            // 0.
            assert_eq!(true, patterns.is_excluded(&mkpath(" "), is_dir));
            assert_eq!(true, patterns.is_excluded(&mkpath("bim"), is_dir));
            assert_eq!(false, patterns.is_excluded(&mkpath("bim  "), is_dir));
            assert_eq!(false, patterns.is_excluded(&mkpath("bam"), is_dir));
            assert_eq!(true, patterns.is_excluded(&mkpath("bam  "), is_dir));

            // 1.
            assert_eq!(false, patterns.is_excluded(&mkpath("#boom"), is_dir));
            assert_eq!(true, patterns.is_excluded(&mkpath("#kaboom"), is_dir));

            // 2.
            assert_eq!(true, patterns.is_excluded(&mkpath("foo"), is_dir));
            assert_eq!(false, patterns.is_excluded(&mkpath("moo/foo"), is_dir));

            assert_eq!(true, patterns.is_excluded(&mkpath("zoo"), is_dir));

            assert_eq!(true, patterns.is_excluded(&mkpath("bar/baz"), is_dir));
            assert_eq!(false, patterns.is_excluded(&mkpath("buz/bar/baz"), is_dir));

            assert_eq!(is_dir, patterns.is_excluded(&mkpath("baz/buz"), is_dir));
            assert_eq!(is_dir, patterns.is_excluded(&mkpath("baz/buzz"), is_dir));

            assert_eq!(is_dir, patterns.is_excluded(&mkpath("baz/qux"), is_dir));
            assert_eq!(is_dir, patterns.is_excluded(&mkpath("baz/qux"), is_dir));

            // 3.
            assert_eq!(true, patterns.is_excluded(&mkpath("zoomzoomzoom"), is_dir));
            assert_eq!(false, patterns.is_excluded(&mkpath("zoomzoom"), is_dir));
            assert_eq!(true, patterns.is_excluded(&mkpath("totorino"), is_dir));
            assert_eq!(false, patterns.is_excluded(&mkpath("toto"), is_dir));
            assert_eq!(false, patterns.is_excluded(&mkpath("totoro"), is_dir));
            assert_eq!(true, patterns.is_excluded(&mkpath("!totoro"), is_dir));
            assert_eq!(false, patterns.is_excluded(&mkpath(".ro"), is_dir));
            assert_eq!(true, patterns.is_excluded(&mkpath("toto.ro"), is_dir));

            // 5.
            assert_eq!(
                true,
                patterns.is_excluded(&mkpath("boo/baz/boz/tata"), is_dir)
            );

            assert_eq!(
                true,
                patterns.is_excluded(&mkpath("titi/baz/boz/titi"), is_dir)
            );
            // `a/**/b` matches `a/b`: the double star stands for zero or
            // more directories.
            assert_eq!(true, patterns.is_excluded(&mkpath("titi/titi"), is_dir));
            assert_eq!(
                false,
                patterns.is_excluded(&mkpath("titi/tutu/baz/boz"), is_dir)
            );
            assert_eq!(
                true,
                patterns.is_excluded(&mkpath("tutu/baz/boz/titi"), is_dir)
            );
        }
    }
}

fn lines(items: &[&str]) -> Vec<String> {
    items.iter().map(|e| e.to_string()).collect()
}

#[test]
fn negation_reincludes_a_path() {
    let patterns = Patterns::new("/r", &lines(&["foo", "!bar/foo"]));
    assert!(patterns.is_excluded("/r/foo", false));
    assert!(patterns.is_excluded("/r/sub/foo", false));
    assert!(!patterns.is_excluded("/r/bar/foo", false));
}

#[test]
fn double_star_between_literals() {
    let patterns = Patterns::new("/r", &lines(&["foo/**/bar"]));
    assert!(patterns.is_excluded("/r/foo/bar", false));
    assert!(patterns.is_excluded("/r/foo/x/bar", false));
    assert!(patterns.is_excluded("/r/foo/x/y/bar", false));
    assert!(!patterns.is_excluded("/r/bar", false));
    assert!(!patterns.is_excluded("/r/foo/bar/baz", false));
}

#[test]
fn exclusion_is_stable() {
    let patterns = Patterns::new("/r", &lines(&["*.log", "!keep.log"]));
    for path in ["/r/a.log", "/r/keep.log", "/r/a.txt"] {
        let first = patterns.is_excluded(path, false);
        let second = patterns.is_excluded(path, false);
        assert_eq!(first, second);
    }
    assert!(patterns.is_excluded("/r/a.log", false));
    assert!(!patterns.is_excluded("/r/keep.log", false));
}

#[test]
fn trailing_slash_only_matches_directories() {
    let patterns = Patterns::new("/r", &lines(&["build/", "cache/  "]));
    assert!(patterns.is_excluded("/r/build", true));
    assert!(!patterns.is_excluded("/r/build", false));
    assert!(patterns.is_excluded("/r/x/cache", true));
    assert!(!patterns.is_excluded("/r/x/cache", false));
}

#[test]
fn unanchored_pattern_matches_at_any_depth() {
    let plain = Patterns::new("/r", &lines(&["target"]));
    let starred = Patterns::new("/r", &lines(&["**/target"]));
    for path in ["/r/target", "/r/a/target", "/r/a/b/target", "/r/targets"] {
        assert_eq!(plain.is_excluded(path, false), starred.is_excluded(path, false));
    }
    assert!(plain.is_excluded("/r/a/b/target", false));
    assert!(!plain.is_excluded("/r/targets", false));
}

#[test]
fn extend_keeps_deeper_whitelist() {
    let mut deeper = Patterns::new("/r/sub", &lines(&["!keep.txt"]));
    let parent = Patterns::new("/r", &lines(&["*.txt"]));
    deeper.extend(&parent);
    assert!(!deeper.is_excluded("/r/sub/keep.txt", false));
    assert!(deeper.is_excluded("/r/sub/drop.txt", false));
    assert!(deeper.is_excluded("/r/other.txt", false));
}

#[test]
fn empty_patterns_exclude_nothing() {
    let patterns = Patterns::empty();
    assert!(!patterns.is_excluded("/r/anything", true));
}

#[test]
fn prefix_and_suffix_shapes() {
    let patterns = Patterns::new("/", &lines(&["/src*", "*.o", "lib*"]));
    assert!(patterns.is_excluded("/src2", false));
    assert!(!patterns.is_excluded("/src", false));
    assert!(patterns.is_excluded("/a/b.o", false));
    assert!(!patterns.is_excluded("/a/.o", false));
    assert!(patterns.is_excluded("/a/libfoo", false));
    assert!(!patterns.is_excluded("/a/lib", false));
}

#[test]
fn glob_fallback_matches() {
    let patterns = Patterns::new("/r", &lines(&["/a?c/x[0-9]"]));
    assert!(patterns.is_excluded("/r/abc/x7", false));
    assert!(!patterns.is_excluded("/r/abc/xy", false));
}

#[test]
fn invalid_glob_is_skipped() {
    let patterns = Patterns::new("/r", &lines(&["/a[", "b"]));
    assert!(patterns.is_excluded("/r/b", false));
    assert!(!patterns.is_excluded("/r/a[", false));
}

#[test]
fn filters_match_at_any_depth() {
    let filters = Filters::new(&lines(&["*.rs", "Makefile"])).unwrap();
    assert!(filters.matches("/r/src/lib.rs"));
    assert!(filters.matches("/r/Makefile"));
    assert!(!filters.matches("/r/src/lib.c"));
    let all = Filters::new(&lines(&["*"])).unwrap();
    assert!(all.matches("/r/anything"));
}

#[test]
fn filters_refuse_a_bad_glob() {
    assert!(Filters::new(&lines(&["a[b"])).is_none());
}
