//! Per-file scan strategies: which records a file yields, given its lines
//! and what the matcher found in each of them.
use vstd::prelude::*;
use vstd::string::StringSliceAdditionalSpecFns;
use vstd::utf8::encode_utf8;
use crate::display::DisplayContext;
use crate::matcher::{exact_outcome, finds, opt_view, well_placed, Match, Matcher};
use crate::text::{lit1, starts_with, string_of, utf8_str};
use crate::lines::{line_text, lines_from, split_lines};

verus! {

/// A scan strategy.
#[derive(Clone, Copy, PartialEq, Eq, Structural)]
pub enum Grep {
    /// Every matching line.
    Plain,
    /// The first matching line only.
    FirstMatch,
    /// The path alone, when every line matches.
    AllLinesMatch,
    /// The number of matching lines.
    Count,
    /// Every matching line with the lines around it.
    WithContext { before: usize, after: usize },
}

pub fn grep() -> (r: Grep)
    ensures
        r == Grep::Plain,
{
    Grep::Plain
}

pub fn grep_with_context(before: usize, after: usize) -> (r: Grep)
    ensures
        r == (Grep::WithContext { before, after }),
{
    Grep::WithContext { before, after }
}

pub fn grep_matches_once() -> (r: Grep)
    ensures
        r == Grep::FirstMatch,
{
    Grep::FirstMatch
}

pub fn grep_matches_all_lines() -> (r: Grep)
    ensures
        r == Grep::AllLinesMatch,
{
    Grep::AllLinesMatch
}

pub fn grep_count() -> (r: Grep)
    ensures
        r == Grep::Count,
{
    Grep::Count
}

/// What a scan yields: a line to show, the path alone, or a separator
/// between two groups of lines.
pub enum Record {
    Line(DisplayContext),
    Path,
    MatchSeparator,
}

/// The model of a record: line number, text, matches and separator.
pub enum RecordView {
    Line(nat, Seq<char>, Seq<Match>, Seq<char>),
    Path,
    MatchSeparator,
}

impl View for Record {
    type V = RecordView;

    open spec fn view(&self) -> RecordView {
        match self {
            Record::Line(c) => RecordView::Line(c.lno as nat, c.line@, c.needle@, c.lno_sep@),
            Record::Path => RecordView::Path,
            Record::MatchSeparator => RecordView::MatchSeparator,
        }
    }
}

pub open spec fn records_of(rs: Seq<Record>) -> Seq<RecordView> {
    rs.map_values(|r: Record| r@)
}

pub open spec fn lines_of(ls: Seq<String>) -> Seq<Seq<char>> {
    ls.map_values(|s: String| s@)
}

pub open spec fn hits_of(hs: Seq<Option<Vec<Match>>>) -> Seq<Option<Seq<Match>>> {
    hs.map_values(|h: Option<Vec<Match>>| opt_view(h))
}

/// What the matcher found in each line lies within that line.
pub open spec fn hits_fit(lines: Seq<Seq<char>>, hits: Seq<Option<Seq<Match>>>) -> bool {
    &&& hits.len() <= lines.len()
    &&& forall|i: int|
        0 <= i < hits.len() ==> (#[trigger] hits[i] matches Some(ms) ==> well_placed(
            ms,
            encode_utf8(lines[i]),
        ))
}

pub open spec fn matches_of(h: Option<Seq<Match>>) -> Seq<Match> {
    match h {
        Some(ms) => ms,
        None => Seq::empty(),
    }
}

pub open spec fn colon() -> Seq<char> {
    seq![':']
}

/// Every matching line among the first `k`, in order.
pub open spec fn plain_upto(lines: Seq<Seq<char>>, hits: Seq<Option<Seq<Match>>>, k: int) -> Seq<RecordView>
    decreases k,
{
    if k <= 0 {
        Seq::empty()
    } else {
        plain_upto(lines, hits, k - 1) + if hits[k - 1] is Some {
            seq![RecordView::Line(k as nat, lines[k - 1], matches_of(hits[k - 1]), colon())]
        } else {
            Seq::empty()
        }
    }
}

/// How many of the first `k` lines match.
pub open spec fn count_upto(hits: Seq<Option<Seq<Match>>>, k: int) -> nat
    decreases k,
{
    if k <= 0 {
        0
    } else {
        count_upto(hits, k - 1) + if hits[k - 1] is Some {
            1nat
        } else {
            0nat
        }
    }
}

/// Line `j` is shown in context: a matching line stands at most `after`
/// lines before it or at most `before` lines after it.
pub open spec fn shown(hits: Seq<Option<Seq<Match>>>, j: int, before: nat, after: nat) -> bool {
    exists|m: int| 0 <= m < hits.len() && #[trigger] hits[m] is Some && j - after <= m <= j + before
}

/// Line `j` follows a matching line by at most `after` lines.
pub open spec fn follows_hit(hits: Seq<Option<Seq<Match>>>, j: int, after: nat) -> bool {
    exists|m: int| 0 <= m < j && #[trigger] hits[m] is Some && j - m <= after
}

/// `:` for a matching line, `+` for one after a match, `-` for one before.
pub open spec fn context_sep(hits: Seq<Option<Seq<Match>>>, j: int, after: nat) -> Seq<char> {
    if hits[j] is Some {
        seq![':']
    } else if follows_hit(hits, j, after) {
        seq!['+']
    } else {
        seq!['-']
    }
}

/// The records of the first `k` lines with context: each shown line in
/// order, and a separator before a shown line whose predecessor is not shown
/// while an earlier line is.
pub open spec fn context_upto(
    lines: Seq<Seq<char>>,
    hits: Seq<Option<Seq<Match>>>,
    before: nat,
    after: nat,
    k: int,
) -> Seq<RecordView>
    decreases k,
{
    if k <= 0 {
        Seq::empty()
    } else {
        let j = k - 1;
        let rest = context_upto(lines, hits, before, after, j);
        if shown(hits, j, before, after) {
            let gap = j > 0 && !shown(hits, j - 1, before, after) && exists|p: int|
                0 <= p < j && #[trigger] shown(hits, p, before, after);
            rest + (if gap {
                seq![RecordView::MatchSeparator]
            } else {
                Seq::empty()
            }) + seq![
                RecordView::Line((j + 1) as nat, lines[j], matches_of(hits[j]), context_sep(hits, j, after)),
            ]
        } else {
            rest
        }
    }
}

/// The records a strategy yields for lines and what was found in them.
pub open spec fn scan_spec(g: Grep, lines: Seq<Seq<char>>, hits: Seq<Option<Seq<Match>>>) -> Seq<RecordView> {
    let n = hits.len() as int;
    match g {
        Grep::Plain => plain_upto(lines, hits, n),
        Grep::FirstMatch => {
            let all = plain_upto(lines, hits, n);
            if all.len() == 0 {
                all
            } else {
                seq![all[0]]
            }
        },
        Grep::AllLinesMatch => if n > 0 && count_upto(hits, n) == n {
            seq![RecordView::Path]
        } else {
            Seq::empty()
        },
        Grep::Count => if count_upto(hits, n) > 0 {
            seq![RecordView::Line(count_upto(hits, n), Seq::empty(), Seq::empty(), colon())]
        } else {
            Seq::empty()
        },
        Grep::WithContext { before, after } => context_upto(
            lines,
            hits,
            before as nat,
            after as nat,
            n,
        ),
    }
}


proof fn lemma_plain_prefix(lines: Seq<Seq<char>>, hits: Seq<Option<Seq<Match>>>, k: int, n: int)
    requires
        0 <= k <= n,
    ensures
        plain_upto(lines, hits, k).len() <= plain_upto(lines, hits, n).len(),
        forall|i: int|
            0 <= i < plain_upto(lines, hits, k).len() ==> plain_upto(lines, hits, n)[i]
                == plain_upto(lines, hits, k)[i],
    decreases n - k,
{
    if k < n {
        lemma_plain_prefix(lines, hits, k, n - 1);
    }
}

fn copy_matches(v: &Vec<Match>) -> (r: Vec<Match>)
    ensures
        r@ == v@,
{
    let mut r: Vec<Match> = Vec::new();
    let mut i: usize = 0;
    while i < v.len()
        invariant
            i <= v@.len(),
            r@ == v@.subrange(0, i as int),
        decreases v.len() - i,
    {
        r.push(v[i]);
        i += 1;
        assert(r@ =~= v@.subrange(0, i as int));
    }
    assert(v@.subrange(0, v@.len() as int) =~= v@);
    r
}

fn hit_matches(h: &Option<Vec<Match>>) -> (r: Vec<Match>)
    ensures
        r@ == matches_of(opt_view(*h)),
{
    match h {
        Some(v) => copy_matches(v),
        None => Vec::new(),
    }
}

fn shown_exec(hits: &Vec<Option<Vec<Match>>>, j: usize, before: usize, after: usize) -> (r: bool)
    requires
        j < hits@.len(),
    ensures
        r == shown(hits_of(hits@), j as int, before as nat, after as nat),
{
    let ghost hv = hits_of(hits@);
    let n = hits.len();
    let lo = if j >= after {
        j - after
    } else {
        0
    };
    let hi = if before < n - j {
        j + before
    } else {
        n - 1
    };
    let mut m: usize = lo;
    while m <= hi
        invariant
            hv == hits_of(hits@),
            n == hits@.len(),
            lo <= m,
            hi < n,
            lo as int == if j >= after { j - after } else { 0 },
            hi as int <= j + before,
            j < n,
            hi as int == if before < n - j { j + before } else { n - 1 },
            forall|x: int| lo <= x < m ==> !(#[trigger] hv[x] is Some),
        decreases hi + 1 - m,
    {
        assert(hv[m as int] == opt_view(hits@[m as int]));
        if hits[m].is_some() {
            assert(hv[m as int] is Some);
            return true;
        }
        m += 1;
    }
    false
}

fn follows_exec(hits: &Vec<Option<Vec<Match>>>, j: usize, after: usize) -> (r: bool)
    requires
        j < hits@.len(),
    ensures
        r == follows_hit(hits_of(hits@), j as int, after as nat),
{
    let ghost hv = hits_of(hits@);
    let lo = if j >= after {
        j - after
    } else {
        0
    };
    let mut m: usize = lo;
    while m < j
        invariant
            hv == hits_of(hits@),
            j < hits@.len(),
            lo <= m <= j,
            lo as int == if j >= after { j - after } else { 0 },
            forall|x: int| lo <= x < m ==> !(#[trigger] hv[x] is Some),
        decreases j - m,
    {
        assert(hv[m as int] == opt_view(hits@[m as int]));
        if hits[m].is_some() {
            return true;
        }
        m += 1;
    }
    false
}

fn sep_string(c: char) -> (r: String)
    ensures
        r@ == seq![c],
{
    string_of(&lit1(c))
}

impl Grep {
    /// The records of this strategy for lines and what the matcher found in
    /// each of them (at most one result per line, in order).
    pub fn scan(&self, lines: &Vec<String>, hits: &Vec<Option<Vec<Match>>>) -> (r: Vec<Record>)
        requires
            hits_fit(lines_of(lines@), hits_of(hits@)),
        ensures
            records_of(r@) == scan_spec(*self, lines_of(lines@), hits_of(hits@)),
            forall|i: int| 0 <= i < r@.len() ==> (#[trigger] r@[i] matches Record::Line(c) ==> c.wf()),
    {
        let ghost lv = lines_of(lines@);
        let ghost hv = hits_of(hits@);
        let n = hits.len();
        let mut out: Vec<Record> = Vec::new();
        match *self {
            Grep::Plain | Grep::FirstMatch => {
                let first = *self == Grep::FirstMatch;
                let mut i: usize = 0;
                while i < n
                    invariant
                        lv == lines_of(lines@),
                        hv == hits_of(hits@),
                        hits_fit(lv, hv),
                        n == hits@.len(),
                        i <= n,
                        records_of(out@) == plain_upto(lv, hv, i as int),
                        first ==> out@.len() == 0,
                        first == (*self == Grep::FirstMatch),
                        *self == Grep::Plain || *self == Grep::FirstMatch,
                        forall|x: int| 0 <= x < out@.len() ==> (#[trigger] out@[x] matches Record::Line(c) ==> c.wf()),
                    decreases n - i,
                {
                    assert(hv[i as int] == opt_view(hits@[i as int]));
                    assert(lv[i as int] == lines@[i as int]@);
                    if hits[i].is_some() {
                        let ctx = DisplayContext::new(i + 1, lines[i].clone(), hit_matches(&hits[i]));
                        out.push(Record::Line(ctx));
                        assert(records_of(out@) =~= plain_upto(lv, hv, i + 1));
                        if first {
                            proof {
                                lemma_plain_prefix(lv, hv, i + 1, n as int);
                            }
                            assert(plain_upto(lv, hv, n as int).len() > 0);
                            assert(records_of(out@) =~= seq![plain_upto(lv, hv, n as int)[0]]);
                            assert(*self == Grep::FirstMatch);
                            assert(records_of(out@) == scan_spec(*self, lv, hv));
                            return out;
                        }
                    } else {
                        assert(records_of(out@) =~= plain_upto(lv, hv, i + 1));
                    }
                    i += 1;
                }
                out
            },
            Grep::AllLinesMatch | Grep::Count => {
                let mut count: usize = 0;
                let mut i: usize = 0;
                while i < n
                    invariant
                        hv == hits_of(hits@),
                        n == hits@.len(),
                        i <= n,
                        count == count_upto(hv, i as int),
                        count <= i,
                    decreases n - i,
                {
                    assert(hv[i as int] == opt_view(hits@[i as int]));
                    if hits[i].is_some() {
                        count += 1;
                    }
                    i += 1;
                }
                if *self == Grep::AllLinesMatch {
                    if n > 0 && count == n {
                        out.push(Record::Path);
                        assert(records_of(out@) =~= seq![RecordView::Path]);
                    } else {
                        assert(records_of(out@) =~= Seq::empty());
                    }
                } else {
                    if count > 0 {
                        let ctx = DisplayContext::new(count, String::new(), Vec::new());
                        out.push(Record::Line(ctx));
                        assert(records_of(out@) =~= seq![
                            RecordView::Line(count as nat, Seq::empty(), Seq::empty(), colon()),
                        ]);
                    } else {
                        assert(records_of(out@) =~= Seq::empty());
                    }
                }
                out
            },
            Grep::WithContext { before, after } => {
                let mut any = false;
                let mut prev = false;
                let mut j: usize = 0;
                while j < n
                    invariant
                        lv == lines_of(lines@),
                        hv == hits_of(hits@),
                        hits_fit(lv, hv),
                        n == hits@.len(),
                        j <= n,
                        records_of(out@) == context_upto(lv, hv, before as nat, after as nat, j as int),
                        any == exists|p: int| 0 <= p < j && #[trigger] shown(hv, p, before as nat, after as nat),
                        prev == (j > 0 && shown(hv, j - 1, before as nat, after as nat)),
                        forall|x: int| 0 <= x < out@.len() ==> (#[trigger] out@[x] matches Record::Line(c) ==> c.wf()),
                    decreases n - j,
                {
                    assert(hv[j as int] == opt_view(hits@[j as int]));
                    assert(lv[j as int] == lines@[j as int]@);
                    let here = shown_exec(hits, j, before, after);
                    if here {
                        if any && !prev {
                            out.push(Record::MatchSeparator);
                        }
                        let sep = if hits[j].is_some() {
                            sep_string(':')
                        } else if follows_exec(hits, j, after) {
                            sep_string('+')
                        } else {
                            sep_string('-')
                        };
                        let ctx = DisplayContext::with_lno_separator(
                            j + 1,
                            lines[j].clone(),
                            hit_matches(&hits[j]),
                            sep.as_str(),
                        );
                        out.push(Record::Line(ctx));
                    }
                    proof {
                        let gap = j > 0 && !shown(hv, j - 1, before as nat, after as nat) && exists|p: int|
                            0 <= p < j && #[trigger] shown(hv, p, before as nat, after as nat);
                        assert(gap == (any && !prev));
                    }
                    assert(records_of(out@) =~= context_upto(lv, hv, before as nat, after as nat, j + 1));
                    any = any || here;
                    prev = here;
                    j += 1;
                }
                out
            },
        }
    }
}


/// What an unbounded exact search gives for each line.
pub open spec fn line_hits(m: Matcher, lines: Seq<Seq<char>>) -> Seq<Option<Seq<Match>>> {
    Seq::new(
        lines.len(),
        |i: int|
            exact_outcome(
                finds(m, lines[i]),
                usize::MAX as nat,
                m.inverted(),
                encode_utf8(lines[i]).len(),
            ),
    )
}

/// The whole contents, where the reader offers them.
pub open spec fn map_text(map: Option<&str>) -> Option<Seq<char>> {
    match map {
        Some(t) => Some(t@),
        None => None,
    }
}

/// The fuzzy test over the whole contents lets the scan go on; it always
/// does when the contents are not offered.
pub open spec fn prefilter_passes(m: Matcher, map: Option<Seq<char>>) -> bool {
    match map {
        Some(t) => (finds(m, t).len() > 0) != m.inverted(),
        None => true,
    }
}

/// The records of a file whose prefilter passed or failed.
pub open spec fn file_records(g: Grep, m: Matcher, map: Option<Seq<char>>, lines: Seq<Seq<char>>) -> Seq<RecordView> {
    if prefilter_passes(m, map) {
        scan_spec(g, lines, line_hits(m, lines))
    } else {
        Seq::empty()
    }
}

proof fn lemma_plain_agree(
    lines: Seq<Seq<char>>,
    h1: Seq<Option<Seq<Match>>>,
    h2: Seq<Option<Seq<Match>>>,
    k: int,
)
    requires
        0 <= k <= h1.len(),
        k <= h2.len(),
        forall|i: int| 0 <= i < k ==> h1[i] == h2[i],
    ensures
        plain_upto(lines, h1, k) == plain_upto(lines, h2, k),
    decreases k,
{
    if k > 0 {
        lemma_plain_agree(lines, h1, h2, k - 1);
    }
}

impl Grep {
    /// Scans one file. `map` is its whole contents where the reader offers
    /// them: when the fuzzy test finds nothing there, nothing is yielded.
    /// Otherwise each line is searched, up to the first match for
    /// `FirstMatch`, and the results are scanned.
    pub fn run(&self, matcher: &Matcher, map: Option<&str>, lines: &Vec<String>) -> (r: Vec<Record>)
        ensures
            records_of(r@) == file_records(*self, *matcher, map_text(map), lines_of(lines@)),
            forall|i: int| 0 <= i < r@.len() ==> (#[trigger] r@[i] matches Record::Line(c) ==> c.wf()),
    {
        if let Some(text) = map {
            if matcher.fuzzy(text).is_none() {
                let r: Vec<Record> = Vec::new();
                assert(records_of(r@) =~= Seq::empty());
                return r;
            }
        }
        let ghost lv = lines_of(lines@);
        let ghost full = line_hits(*matcher, lv);
        let mut hits: Vec<Option<Vec<Match>>> = Vec::new();
        let mut i: usize = 0;
        let mut done = false;
        while i < lines.len() && !done
            invariant
                lv == lines_of(lines@),
                full == line_hits(*matcher, lv),
                i <= lines@.len(),
                hits@.len() == i,
                hits_fit(lv, hits_of(hits@)),
                hits_of(hits@) == full.subrange(0, i as int),
                done ==> *self == Grep::FirstMatch && i > 0 && full[i - 1] is Some,
            decreases lines.len() - i,
        {
            assert(lv[i as int] == lines@[i as int]@);
            let h = matcher.exact(lines[i].as_str(), usize::MAX);
            let stop = *self == Grep::FirstMatch && h.is_some();
            let ghost before = hits_of(hits@);
            hits.push(h);
            assert(hits_of(hits@) =~= before.push(opt_view(h)));
            i += 1;
            assert(hits_of(hits@) =~= full.subrange(0, i as int));
            done = stop;
        }
        let r = self.scan(lines, &hits);
        proof {
            let hs = hits_of(hits@);
            if i == lines@.len() {
                assert(hs =~= full);
            } else {
                let k = i as int;
                let n = full.len() as int;
                lemma_plain_agree(lv, hs, full, k);
                lemma_plain_prefix(lv, full, k, n);
                assert(plain_upto(lv, full, k).len() > 0);
                assert(scan_spec(*self, lv, hs) == scan_spec(*self, lv, full));
            }
        }
        r
    }
}

/// The first-match strategy yields at most one record.
pub proof fn law_first_match_reports_once(lines: Seq<Seq<char>>, hits: Seq<Option<Seq<Match>>>)
    ensures
        scan_spec(Grep::FirstMatch, lines, hits).len() <= 1,
{
}

proof fn lemma_count_bounds(hits: Seq<Option<Seq<Match>>>, k: int)
    requires
        0 <= k <= hits.len(),
    ensures
        count_upto(hits, k) <= k,
        count_upto(hits, k) == k <==> forall|i: int| 0 <= i < k ==> (#[trigger] hits[i]) is Some,
        count_upto(hits, k) > 0 <==> exists|i: int| 0 <= i < k && (#[trigger] hits[i]) is Some,
    decreases k,
{
    if k > 0 {
        lemma_count_bounds(hits, k - 1);
        if !(hits[k - 1] is Some) {
            assert(!(forall|i: int| 0 <= i < k ==> (#[trigger] hits[i]) is Some));
        }
        if exists|i: int| 0 <= i < k && (#[trigger] hits[i]) is Some {
            let i = choose|i: int| 0 <= i < k && (#[trigger] hits[i]) is Some;
            if i < k - 1 {
                assert(exists|i: int| 0 <= i < k - 1 && (#[trigger] hits[i]) is Some);
            }
        }
    }
}

/// With the inverted matcher, the all-lines strategy reports a file, once,
/// exactly when it has lines and no line holds a match.
pub proof fn law_files_without_match(
    lines: Seq<Seq<char>>,
    found: Seq<Seq<Match>>,
    hits: Seq<Option<Seq<Match>>>,
)
    requires
        found.len() == hits.len(),
        forall|i: int|
            0 <= i < hits.len() ==> #[trigger] hits[i] == exact_outcome(
                found[i],
                usize::MAX as nat,
                true,
                encode_utf8(lines[i]).len(),
            ),
    ensures
        scan_spec(Grep::AllLinesMatch, lines, hits).len() <= 1,
        scan_spec(Grep::AllLinesMatch, lines, hits) == seq![RecordView::Path] <==> hits.len() > 0
            && forall|i: int| 0 <= i < hits.len() ==> (#[trigger] found[i]).len() == 0,
{
    lemma_count_bounds(hits, hits.len() as int);
    assert forall|i: int| 0 <= i < hits.len() implies ((#[trigger] hits[i]) is Some <==> found[i].len() == 0) by {
        assert(hits[i] == exact_outcome(found[i], usize::MAX as nat, true, encode_utf8(lines[i]).len()));
        if found[i].len() > 0 {
            assert(found[i].subrange(0, found[i].len() as int).len() > 0);
        }
    }
    let n = hits.len() as int;
    assert((forall|i: int| 0 <= i < n ==> (#[trigger] hits[i]) is Some) <==> (forall|i: int|
        0 <= i < n ==> (#[trigger] found[i]).len() == 0)) by {
        if forall|i: int| 0 <= i < n ==> (#[trigger] hits[i]) is Some {
            assert forall|i: int| 0 <= i < n implies (#[trigger] found[i]).len() == 0 by {
                assert(hits[i] is Some);
            }
        }
        if forall|i: int| 0 <= i < n ==> (#[trigger] found[i]).len() == 0 {
            assert forall|i: int| 0 <= i < n implies (#[trigger] hits[i]) is Some by {
                assert(found[i].len() == 0);
            }
        }
    }
    assert(seq![RecordView::Path].len() == 1);
}

/// The count strategy reports the number of lines the matcher found
/// something in, when there is one, as the record's number.
pub proof fn law_count_reports_matching_lines(lines: Seq<Seq<char>>, hits: Seq<Option<Seq<Match>>>)
    ensures
        count_upto(hits, hits.len() as int) > 0 ==> scan_spec(Grep::Count, lines, hits) == seq![
            RecordView::Line(count_upto(hits, hits.len() as int), Seq::empty(), Seq::empty(), colon()),
        ],
        count_upto(hits, hits.len() as int) > 0 <==> exists|i: int|
            0 <= i < hits.len() && (#[trigger] hits[i]) is Some,
        count_upto(hits, hits.len() as int) == 0 ==> scan_spec(Grep::Count, lines, hits).len() == 0,
{
    lemma_count_bounds(hits, hits.len() as int);
}

proof fn lemma_context_records(
    lines: Seq<Seq<char>>,
    hits: Seq<Option<Seq<Match>>>,
    before: nat,
    after: nat,
    k: int,
)
    requires
        0 <= k <= hits.len(),
    ensures
        forall|i: int|
            0 <= i < context_upto(lines, hits, before, after, k).len() ==> match #[trigger] context_upto(
                lines,
                hits,
                before,
                after,
                k,
            )[i] {
                RecordView::Line(lno, _, _, _) => 1 <= lno <= k && shown(hits, lno - 1, before, after),
                _ => true,
            },
        forall|i: int, l: int|
            0 <= i < l < context_upto(lines, hits, before, after, k).len() ==> match (
                #[trigger] context_upto(lines, hits, before, after, k)[i],
                #[trigger] context_upto(lines, hits, before, after, k)[l],
            ) {
                (RecordView::Line(a, _, _, _), RecordView::Line(b, _, _, _)) => a < b,
                _ => true,
            },
    decreases k,
{
    if k > 0 {
        lemma_context_records(lines, hits, before, after, k - 1);
    }
}

/// With context, every record shows a line within `before` lines before or
/// `after` lines after a matching line, and line numbers strictly increase.
pub proof fn law_context_records_near_matches_in_order(
    lines: Seq<Seq<char>>,
    hits: Seq<Option<Seq<Match>>>,
    before: usize,
    after: usize,
)
    ensures
        ({
            let rs = scan_spec(Grep::WithContext { before, after }, lines, hits);
            &&& forall|i: int|
                0 <= i < rs.len() ==> match #[trigger] rs[i] {
                    RecordView::Line(lno, _, _, _) => exists|m: int|
                        0 <= m < hits.len() && #[trigger] hits[m] is Some && m + 1 - before <= lno
                            <= m + 1 + after,
                    _ => true,
                }
            &&& forall|i: int, l: int|
                0 <= i < l < rs.len() ==> match (#[trigger] rs[i], #[trigger] rs[l]) {
                    (RecordView::Line(a, _, _, _), RecordView::Line(b, _, _, _)) => a < b,
                    _ => true,
                }
        }),
{
    lemma_context_records(lines, hits, before as nat, after as nat, hits.len() as int);
}


/// A byte order mark of UTF-8, UTF-32 or UTF-16 opens the buffer.
pub open spec fn has_bom(b: Seq<u8>) -> bool {
    starts_with(b, seq![0xefu8, 0xbbu8, 0xbfu8]) || starts_with(b, seq![0x00u8, 0x00u8, 0xfeu8, 0xffu8])
        || starts_with(b, seq![0xffu8, 0xfeu8, 0x00u8, 0x00u8]) || starts_with(b, seq![0xfeu8, 0xffu8])
        || starts_with(b, seq![0xffu8, 0xfeu8])
}

/// Binary content: no byte order mark, and a NUL byte among the first 1024
/// bytes or a PDF or PNG signature at the start.
pub open spec fn looks_binary(b: Seq<u8>) -> bool {
    !has_bom(b) && ((exists|i: int| 0 <= i < b.len() && i < 1024 && b[i] == 0) || starts_with(
        b,
        seq![0x25u8, 0x50u8, 0x44u8, 0x46u8],
    ) || starts_with(b, seq![0x89u8, 0x50u8, 0x4eu8, 0x47u8]))
}

/// Relies on content_inspector::inspect and ContentType::is_binary: a buffer
/// without a byte order mark is binary when a NUL byte stands among its
/// first 1024 bytes, or when it opens with `%PDF` or `\x89PNG`.
#[verifier::external_body]
fn is_binary(b: &[u8]) -> (r: bool)
    ensures
        r == looks_binary(b@),
{
    content_inspector::inspect(b).is_binary()
}

/// The lines of a file's contents, as text.
pub open spec fn file_lines(content: Seq<u8>) -> Seq<Seq<char>> {
    lines_from(content, 0).map_values(|l: Seq<u8>| line_text(l))
}

/// A NUL byte stands among the first 1024 bytes.
pub open spec fn nul_in_head(b: Seq<u8>) -> bool {
    exists|i: int| 0 <= i < b.len() && i < 1024 && b[i] == 0
}

/// Contents that are not scanned: a NUL byte among the first 1024 bytes, or
/// what content_inspector takes for binary.
pub open spec fn skipped_as_binary(b: Seq<u8>) -> bool {
    nul_in_head(b) || looks_binary(b)
}

/// The whole contents as text, when they are UTF-8.
pub open spec fn content_text(b: Seq<u8>) -> Option<Seq<char>> {
    if vstd::utf8::valid_utf8(b) {
        Some(vstd::utf8::decode_utf8(b))
    } else {
        None
    }
}

fn nul_in_head_exec(b: &[u8]) -> (r: bool)
    ensures
        r == nul_in_head(b@),
{
    let mut i: usize = 0;
    while i < b.len() && i < 1024
        invariant
            i <= b@.len(),
            forall|j: int| 0 <= j < i ==> b@[j] != 0,
        decreases b.len() - i,
    {
        if b[i] == 0 {
            return true;
        }
        i += 1;
    }
    false
}

impl Grep {
    /// Scans a file held in memory: `None` when it is taken for binary (it
    /// is not scanned), else the records of its lines. The fuzzy test runs
    /// over the whole contents when they are UTF-8.
    pub fn grep_content(&self, matcher: &Matcher, content: &[u8]) -> (r: Option<Vec<Record>>)
        ensures
            r is None <==> skipped_as_binary(content@),
            r matches Some(rs) ==> records_of(rs@) == file_records(
                *self,
                *matcher,
                content_text(content@),
                file_lines(content@),
            ),
            r matches Some(rs) ==> forall|i: int|
                0 <= i < rs@.len() ==> (#[trigger] rs@[i] matches Record::Line(c) ==> c.wf()),
    {
        if nul_in_head_exec(content) || is_binary(content) {
            return None;
        }
        let lines = split_lines(content);
        assert(lines_of(lines@) =~= file_lines(content@));
        let text = utf8_str(content);
        proof {
            if let Some(t) = text {
                vstd::utf8::encode_utf8_decode_utf8(t@);
            }
            assert(map_text(text) == content_text(content@));
        }
        Some(self.run(matcher, text, &lines))
    }
}


/// With the inverted matcher and no whole-contents test, the all-lines
/// strategy reports a file, once, exactly when it has lines and the regular
/// expression finds nothing in any of them.
pub proof fn law_files_without_match_in_a_file(m: Matcher, lines: Seq<Seq<char>>)
    requires
        m.inverted(),
    ensures
        file_records(Grep::AllLinesMatch, m, None, lines).len() <= 1,
        file_records(Grep::AllLinesMatch, m, None, lines) == seq![RecordView::Path] <==> lines.len()
            > 0 && forall|i: int| 0 <= i < lines.len() ==> (#[trigger] finds(m, lines[i])).len() == 0,
{
    let hits = line_hits(m, lines);
    let found = Seq::new(lines.len(), |i: int| finds(m, lines[i]));
    assert forall|i: int| 0 <= i < hits.len() implies #[trigger] hits[i] == exact_outcome(
        found[i],
        usize::MAX as nat,
        true,
        encode_utf8(lines[i]).len(),
    ) by {}
    law_files_without_match(lines, found, hits);
    assert((forall|i: int| 0 <= i < hits.len() ==> (#[trigger] found[i]).len() == 0) <==> (forall|i: int|
        0 <= i < lines.len() ==> (#[trigger] finds(m, lines[i])).len() == 0)) by {
        if forall|i: int| 0 <= i < hits.len() ==> (#[trigger] found[i]).len() == 0 {
            assert forall|i: int| 0 <= i < lines.len() implies (#[trigger] finds(m, lines[i])).len() == 0 by {
                assert(found[i] == finds(m, lines[i]));
            }
        }
    }
}

} // verus!
