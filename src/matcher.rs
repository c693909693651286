//! The matcher: a compiled regular expression and an invert flag, with a
//! fuzzy test over a whole buffer and a bounded search within one line.
use vstd::prelude::*;
use vstd::string::StringSliceAdditionalSpecFns;
use vstd::utf8::is_char_boundary;

verus! {

/// A half-open byte range of a match in a line.
#[derive(Clone, Copy, PartialEq, Eq, Structural)]
pub struct Match {
    pub start: usize,
    pub end: usize,
}

impl Match {
    pub fn new(start: usize, end: usize) -> (r: Match)
        ensures
            r.start == start,
            r.end == end,
    {
        Match { start, end }
    }

    pub fn start(&self) -> (r: usize)
        ensures
            r == self.start,
    {
        self.start
    }

    pub fn end(&self) -> (r: usize)
        ensures
            r == self.end,
    {
        self.end
    }
}

/// The matches are in order, do not overlap, and each lies within the text
/// on character boundaries.
pub open spec fn well_placed(ms: Seq<Match>, text: Seq<u8>) -> bool {
    &&& forall|i: int|
        0 <= i < ms.len() ==> #[trigger] ms[i].start <= ms[i].end <= text.len()
            && is_char_boundary(text, ms[i].start as int) && is_char_boundary(text, ms[i].end as int)
    &&& forall|i: int| 0 < i < ms.len() ==> ms[i - 1].end <= #[trigger] ms[i].start
}


/// Whether the regular expression is tested over a whole buffer, or searched
/// for at most so many matches within one line.
pub enum MatcherOptions {
    Fuzzy,
    Exact(usize),
}

#[verifier::external_type_specification]
#[verifier::external_body]
pub struct ExRegex(regex::Regex);

#[verifier::external_type_specification]
#[verifier::external_body]
pub struct ExRegexError(regex::Error);

/// The matches a regular expression finds in a text: successive,
/// non-overlapping, leftmost-first, as byte ranges.
pub uninterp spec fn regex_finds(pattern: Seq<char>, ignore_case: bool, text: Seq<char>) -> Seq<Match>;

/// Relies on regex::RegexBuilder::new, RegexBuilder::case_insensitive and
/// RegexBuilder::build: the expression compiled from the pattern with the
/// case flag, kept beside them, or regex's error.
#[verifier::external_body]
fn build(pattern: &str, ignore_case: bool, invert: bool) -> (r: Result<Matcher, regex::Error>)
    ensures
        r matches Ok(m) ==> m.pattern() == pattern@ && m.ignore_case() == ignore_case
            && m.inverted() == invert,
{
    match regex::RegexBuilder::new(pattern).case_insensitive(ignore_case).build() {
        Ok(regex) => Ok(Matcher { regex, pattern: pattern.to_owned(), ignore_case, invert }),
        Err(e) => Err(e),
    }
}

/// Relies on regex::Regex::find_iter with regex::Match::start and
/// regex::Match::end: the successive non-overlapping matches, in order, as
/// byte ranges of the text (which always fall on character boundaries).
#[verifier::external_body]
fn find_all(m: &Matcher, text: &str) -> (r: Vec<Match>)
    ensures
        r@ == regex_finds(m.pattern(), m.ignore_case(), text@),
        well_placed(r@, text.spec_bytes()),
{
    m.regex.find_iter(text).map(|x| Match { start: x.start(), end: x.end() }).collect()
}

/// Relies on regex::Regex::shortest_match: the end offset of a match when
/// the text holds one (which offset depends on the engine), `None` otherwise.
#[verifier::external_body]
fn shortest(m: &Matcher, text: &str) -> (r: Option<usize>)
    ensures
        r is Some <==> regex_finds(m.pattern(), m.ignore_case(), text@).len() > 0,
        r matches Some(e) ==> e <= text.spec_bytes().len(),
{
    m.regex.shortest_match(text)
}

/// `Some` of the one side that is `Some`, else `None`.
pub open spec fn xor<T>(a: Option<T>, b: Option<T>) -> Option<T> {
    match (a, b) {
        (Some(x), None) => Some(x),
        (None, Some(y)) => Some(y),
        _ => None,
    }
}

/// The whole text as one match.
pub open spec fn whole(len: nat) -> Seq<Match> {
    seq![Match { start: 0, end: len as usize }]
}

/// The result of an exact search that found `found`: at most `max` of them,
/// `None` for none; when inverted, the whole line for none and `None`
/// otherwise.
pub open spec fn exact_outcome(found: Seq<Match>, max: nat, invert: bool, len: nat) -> Option<Seq<Match>> {
    let k = if max < found.len() {
        max
    } else {
        found.len()
    };
    let taken = found.subrange(0, k as int);
    xor(
        if taken.len() == 0 {
            None
        } else {
            Some(taken)
        },
        if invert {
            Some(whole(len))
        } else {
            None
        },
    )
}

/// The result of a fuzzy test that found a match ending at `found`, if any:
/// one range from the start, or, inverted, the whole text when none.
pub open spec fn fuzzy_outcome(found: Option<usize>, invert: bool, len: nat) -> Option<Seq<Match>> {
    xor(
        match found {
            Some(e) => Some(seq![Match { start: 0, end: e }]),
            None => None,
        },
        if invert {
            Some(whole(len))
        } else {
            None
        },
    )
}

pub open spec fn opt_view(r: Option<Vec<Match>>) -> Option<Seq<Match>> {
    match r {
        Some(v) => Some(v@),
        None => None,
    }
}

fn single(m: Match) -> (r: Vec<Match>)
    ensures
        r@ == seq![m],
{
    let mut r: Vec<Match> = Vec::new();
    r.push(m);
    assert(r@ =~= seq![m]);
    r
}

/// Combines what an exact search found with the bound and the invert flag.
pub fn exact_result(found: Vec<Match>, max: usize, invert: bool, len: usize) -> (r: Option<Vec<Match>>)
    ensures
        opt_view(r) == exact_outcome(found@, max as nat, invert, len as nat),
{
    let k = if max < found.len() {
        max
    } else {
        found.len()
    };
    let mut taken: Vec<Match> = Vec::new();
    let mut i: usize = 0;
    while i < k
        invariant
            k <= found@.len(),
            i <= k,
            taken@ == found@.subrange(0, i as int),
        decreases k - i,
    {
        taken.push(found[i]);
        i += 1;
        assert(taken@ =~= found@.subrange(0, i as int));
    }
    let plain = if taken.len() == 0 {
        None
    } else {
        Some(taken)
    };
    match (plain, invert) {
        (Some(t), false) => Some(t),
        (None, true) => {
            let w = single(Match::new(0, len));
            assert(w@ =~= whole(len as nat));
            Some(w)
        },
        _ => None,
    }
}

/// Combines what a fuzzy test found with the invert flag.
pub fn fuzzy_result(found: Option<usize>, invert: bool, len: usize) -> (r: Option<Vec<Match>>)
    ensures
        opt_view(r) == fuzzy_outcome(found, invert, len as nat),
{
    let plain = match found {
        Some(e) => Some(single(Match::new(0, e))),
        None => None,
    };
    match (plain, invert) {
        (Some(t), false) => Some(t),
        (None, true) => {
            let w = single(Match::new(0, len));
            assert(w@ =~= whole(len as nat));
            Some(w)
        },
        _ => None,
    }
}

/// A compiled regular expression, the pattern and case flag it was built
/// from, and whether its sense is inverted.
pub struct Matcher {
    regex: regex::Regex,
    pattern: String,
    ignore_case: bool,
    invert: bool,
}

/// What the matcher finds in a text.
pub open spec fn finds(m: Matcher, text: Seq<char>) -> Seq<Match> {
    regex_finds(m.pattern(), m.ignore_case(), text)
}

impl Matcher {
    /// Compiles the pattern, case-insensitively when `ignore_case` says so.
    pub fn new(pattern: &str, ignore_case: bool, invert: bool) -> (r: Result<Matcher, regex::Error>)
        ensures
            r matches Ok(m) ==> m.pattern() == pattern@ && m.ignore_case() == ignore_case
                && m.inverted() == invert,
    {
        build(pattern, ignore_case, invert)
    }

    pub closed spec fn pattern(&self) -> Seq<char> {
        self.pattern@
    }

    pub closed spec fn ignore_case(&self) -> bool {
        self.ignore_case
    }

    pub closed spec fn inverted(&self) -> bool {
        self.invert
    }

    /// Whether the text holds a match at all (inverted: holds none).
    pub fn fuzzy(&self, text: &str) -> (r: Option<Vec<Match>>)
        ensures
            r is Some <==> ((finds(*self, text@).len() > 0) != self.inverted()),
            exists|found: Option<usize>|
                (found is Some <==> finds(*self, text@).len() > 0) && (found matches Some(e) ==> e
                    <= text.spec_bytes().len()) && opt_view(r) == fuzzy_outcome(
                    found,
                    self.inverted(),
                    text.spec_bytes().len(),
                ),
    {
        let found = shortest(self, text);
        let r = fuzzy_result(found, self.invert, text.as_bytes().len());
        assert(opt_view(r) == fuzzy_outcome(found, self.inverted(), text.spec_bytes().len()));
        r
    }

    /// Up to `max` matches of the line, in order (inverted: the whole line
    /// when it holds none, else `None`).
    pub fn exact(&self, line: &str, max: usize) -> (r: Option<Vec<Match>>)
        ensures
            opt_view(r) == exact_outcome(
                finds(*self, line@),
                max as nat,
                self.inverted(),
                line.spec_bytes().len(),
            ),
            r matches Some(v) ==> well_placed(v@, line.spec_bytes()),
    {
        let found = find_all(self, line);
        let ghost f = found@;
        let len = line.as_bytes().len();
        let r = exact_result(found, max, self.invert, len);
        proof {
            let b = line.spec_bytes();
            vstd::utf8::encode_utf8_valid_utf8(line@);
            vstd::utf8::is_char_boundary_start_end_of_seq(b);
            let k = if (max as nat) < f.len() {
                max as nat
            } else {
                f.len()
            };
            let taken = f.subrange(0, k as int);
            assert(well_placed(taken, b)) by {
                assert forall|i: int| 0 < i < taken.len() implies taken[i - 1].end
                    <= #[trigger] taken[i].start by {
                    assert(f[i - 1] == taken[i - 1]);
                    assert(f[i] == taken[i]);
                }
                assert forall|i: int| 0 <= i < taken.len() implies #[trigger] taken[i].start
                    <= taken[i].end <= b.len() && is_char_boundary(b, taken[i].start as int)
                    && is_char_boundary(b, taken[i].end as int) by {
                    assert(f[i] == taken[i]);
                }
            }
            assert(well_placed(whole(len as nat), b)) by {
                assert(whole(len as nat)[0] == Match { start: 0, end: len });
            }
        }
        r
    }

    /// The fuzzy test or the bounded search, as `options` says.
    pub fn call(&self, text: &str, options: MatcherOptions) -> (r: Option<Vec<Match>>)
        ensures
            options is Fuzzy ==> (r is Some <==> ((finds(*self, text@).len() > 0)
                != self.inverted())),
            options matches MatcherOptions::Exact(max) ==> opt_view(r) == exact_outcome(
                finds(*self, text@),
                max as nat,
                self.inverted(),
                text.spec_bytes().len(),
            ),
    {
        match options {
            MatcherOptions::Fuzzy => self.fuzzy(text),
            MatcherOptions::Exact(max) => self.exact(text, max),
        }
    }
}

} // verus!
