//! Rendering of match records: path and line-number prefix, a window of the
//! line around a single match, highlighted matches, and separators.
use vstd::prelude::*;
use vstd::string::{StringExecFns, StringSliceAdditionalSpecFns};
use vstd::utf8::{
    decode_utf8, encode_utf8, encode_utf8_decode_utf8, encode_utf8_valid_utf8,
    is_char_boundary, is_char_boundary_iff_not_is_continuation_byte,
    is_char_boundary_start_end_of_seq, valid_utf8, valid_utf8_split,
};
use crate::matcher::{well_placed, Match};
use crate::text::{chars_at, chars_of, chars_slice, lit1, starts_with, string_of};
use crate::writer::BufferedWriter;
use crate::grep::Record;

verus! {

/// The text between two byte offsets of a line.
pub open spec fn between(line: Seq<char>, from: int, to: int) -> Seq<char> {
    decode_utf8(encode_utf8(line).subrange(from, to))
}

proof fn lemma_boundary_in_rest(b: Seq<u8>, from: int, to: int)
    requires
        valid_utf8(b),
        0 <= from <= to <= b.len(),
        is_char_boundary(b, from),
        is_char_boundary(b, to),
    ensures
        valid_utf8(b.subrange(from, b.len() as int)),
        is_char_boundary(b.subrange(from, b.len() as int), to - from),
{
    valid_utf8_split(b, from);
    let rest = b.subrange(from, b.len() as int);
    if to == b.len() {
        is_char_boundary_start_end_of_seq(rest);
        assert(rest.len() == to - from);
    } else {
        is_char_boundary_iff_not_is_continuation_byte(b, to);
        is_char_boundary_iff_not_is_continuation_byte(rest, to - from);
    }
}

/// The part of `s` between two byte offsets that fall on character boundaries.
fn substr(s: &str, from: usize, to: usize) -> (r: &str)
    requires
        from <= to <= s.spec_bytes().len(),
        is_char_boundary(s.spec_bytes(), from as int),
        is_char_boundary(s.spec_bytes(), to as int),
    ensures
        r@ == between(s@, from as int, to as int),
{
    proof {
        encode_utf8_valid_utf8(s@);
        lemma_boundary_in_rest(s.spec_bytes(), from as int, to as int);
    }
    let rest = s.split_at(from).1;
    let r = rest.split_at(to - from).0;
    proof {
        assert(r.spec_bytes() =~= s.spec_bytes().subrange(from as int, to as int));
        encode_utf8_decode_utf8(r@);
    }
    r
}


/// The terminal colours the output uses.
#[derive(Clone, Copy, PartialEq, Eq, Structural)]
pub enum Tint {
    Red,
    Green,
    Blue,
    Cyan,
    Purple,
    Fixed(u8),
}

/// The number of a colour in a select-graphic-rendition escape code.
pub open spec fn tint_code(tint: Tint) -> Seq<char> {
    match tint {
        Tint::Red => seq!['3', '1'],
        Tint::Green => seq!['3', '2'],
        Tint::Blue => seq!['3', '4'],
        Tint::Cyan => seq!['3', '6'],
        Tint::Purple => seq!['3', '5'],
        Tint::Fixed(n) => seq!['3', '8', ';', '5', ';'] + decimal(n as nat),
    }
}

/// The text wrapped in the escape codes that show it in a colour: `ESC [`,
/// the colour's code and `m` before it, `ESC [0m` after it.
pub open spec fn painted(tint: Tint, text: Seq<char>) -> Seq<char> {
    seq!['\u{1b}', '['] + tint_code(tint) + seq!['m'] + text + seq!['\u{1b}', '[', '0', 'm']
}

/// Relies on ansi_term::Colour::paint and the `Display` of the painted
/// string: the prefix `ESC [<code>m`, the text, the suffix `ESC [0m`.
#[verifier::external_body]
fn paint(tint: Tint, text: &str) -> (r: String)
    ensures
        r@ == painted(tint, text@),
{
    let colour = match tint {
        Tint::Red => ansi_term::Colour::Red,
        Tint::Green => ansi_term::Colour::Green,
        Tint::Blue => ansi_term::Colour::Blue,
        Tint::Cyan => ansi_term::Colour::Cyan,
        Tint::Purple => ansi_term::Colour::Purple,
        Tint::Fixed(n) => ansi_term::Colour::Fixed(n),
    };
    colour.paint(text).to_string()
}

/// The text, painted when colours are on.
pub open spec fn tinted(colour: bool, tint: Tint, text: Seq<char>) -> Seq<char> {
    if colour {
        painted(tint, text)
    } else {
        text
    }
}

fn tint_exec(colour: bool, tint: Tint, text: &str) -> (r: String)
    ensures
        r@ == tinted(colour, tint, text@),
{
    if colour {
        paint(tint, text)
    } else {
        text.to_owned()
    }
}

pub open spec fn left_ellipsis() -> Seq<char> {
    seq!['[', '.', '.', '.', ']', ' ']
}

pub open spec fn right_ellipsis() -> Seq<char> {
    seq![' ', '[', '.', '.', '.', ']']
}

/// Byte length of an ellipsis.
pub const ELLIPSIS_LEN: usize = 6;

/// The first character boundary at or after `i`, stopping at `limit`.
pub open spec fn slide_up(b: Seq<u8>, i: int, limit: int) -> int
    decreases limit - i,
{
    if i >= limit || is_char_boundary(b, i) {
        i
    } else {
        slide_up(b, i + 1, limit)
    }
}

/// The last character boundary at or before `i`, stopping at `limit`.
pub open spec fn slide_down(b: Seq<u8>, i: int, limit: int) -> int
    decreases i - limit,
{
    if i <= limit || is_char_boundary(b, i) {
        i
    } else {
        slide_down(b, i - 1, limit)
    }
}

pub open spec fn min(a: int, b: int) -> int {
    if a < b {
        a
    } else {
        b
    }
}

/// Columns left and right of a match `[s, e)` of a line of `len` bytes shown
/// in `w` columns, `w` wider than the match: the match is centred where the
/// line allows it.
pub open spec fn margins(w: int, len: int, s: int, e: int) -> (int, int) {
    let m = e - s;
    if s < w / 2 {
        let left = min(s, (w - m) / 2);
        (left, w - m - left)
    } else {
        let right = min(len - e, (w - m) / 2);
        (w - m - right, right)
    }
}

/// The part of a line shown around a single match `[s, e)` in `width`
/// columns: its first byte, whether an ellipsis stands before it, its end,
/// and whether an ellipsis stands after it. A match wider than the columns
/// is shown alone. A side longer than its margin is cut, the ellipsis taking
/// its place, at a character boundary.
pub open spec fn window(width: int, b: Seq<u8>, s: int, e: int) -> (int, bool, int, bool) {
    let m = e - s;
    let len = b.len() as int;
    let w = if width > m {
        width
    } else {
        m
    };
    if w == m {
        (s, false, e, false)
    } else {
        let (left, right) = margins(w, len, s, e);
        let (start, before) = if s > left {
            if left <= 6 {
                (0, false)
            } else {
                (slide_up(b, s - left + 6, s), true)
            }
        } else {
            (0, false)
        };
        let (end, after) = if len - e > right {
            if right <= 6 {
                (len, false)
            } else {
                (slide_down(b, e + right - 6, e), true)
            }
        } else {
            (len, false)
        };
        (start, before, end, after)
    }
}

/// A line with its single match shown within `width` columns.
pub open spec fn one_text(width: int, line: Seq<char>, s: int, e: int, colour: bool) -> Seq<char> {
    let (start, before, end, after) = window(width, encode_utf8(line), s, e);
    tinted(colour, Tint::Purple, if before { left_ellipsis() } else { Seq::empty() }) + between(
        line,
        start,
        s,
    ) + tinted(colour, Tint::Red, between(line, s, e)) + between(line, e, end) + tinted(
        colour,
        Tint::Purple,
        if after { right_ellipsis() } else { Seq::empty() },
    )
}

proof fn lemma_slide_up(b: Seq<u8>, i: int, limit: int)
    requires
        i <= limit,
        is_char_boundary(b, limit),
    ensures
        i <= slide_up(b, i, limit) <= limit,
        is_char_boundary(b, slide_up(b, i, limit)),
    decreases limit - i,
{
    if i < limit && !is_char_boundary(b, i) {
        lemma_slide_up(b, i + 1, limit);
    }
}

proof fn lemma_slide_down(b: Seq<u8>, i: int, limit: int)
    requires
        limit <= i,
        is_char_boundary(b, limit),
    ensures
        limit <= slide_down(b, i, limit) <= i,
        is_char_boundary(b, slide_down(b, i, limit)),
    decreases i - limit,
{
    if limit < i && !is_char_boundary(b, i) {
        lemma_slide_down(b, i - 1, limit);
    }
}

/// The window shown around a single match never cuts the line inside a
/// character: both of its ends fall on character boundaries.
pub proof fn law_window_cuts_on_char_boundaries(width: int, line: Seq<char>, s: int, e: int)
    requires
        0 <= s <= e <= encode_utf8(line).len(),
        is_char_boundary(encode_utf8(line), s),
        is_char_boundary(encode_utf8(line), e),
    ensures
        ({
            let (start, _, end, _) = window(width, encode_utf8(line), s, e);
            &&& 0 <= start <= s
            &&& e <= end <= encode_utf8(line).len()
            &&& is_char_boundary(encode_utf8(line), start)
            &&& is_char_boundary(encode_utf8(line), end)
        }),
{
    let b = encode_utf8(line);
    encode_utf8_valid_utf8(line);
    is_char_boundary_start_end_of_seq(b);
    let m = e - s;
    let w = if width > m { width } else { m };
    if w != m {
        let (left, right) = margins(w, b.len() as int, s, e);
        if s > left && left > 6 {
            lemma_slide_up(b, s - left + 6, s);
        }
        if b.len() - e > right && right > 6 {
            lemma_slide_down(b, e + right - 6, e);
        }
    }
}

fn concat5(a: String, b: &str, c: &str, d: &str, e: &str) -> (r: String)
    ensures
        r@ == a@ + b@ + c@ + d@ + e@,
{
    let mut r = a;
    r.append(b);
    r.append(c);
    r.append(d);
    r.append(e);
    r
}


fn window_exec(width: usize, line: &str, s: usize, e: usize) -> (r: (usize, bool, usize, bool))
    requires
        s <= e <= line.spec_bytes().len(),
        is_char_boundary(line.spec_bytes(), s as int),
        is_char_boundary(line.spec_bytes(), e as int),
    ensures
        (r.0 as int, r.1, r.2 as int, r.3) == window(width as int, line.spec_bytes(), s as int, e as int),
        r.0 <= s,
        e <= r.2 <= line.spec_bytes().len(),
{
    let ghost b = line.spec_bytes();
    proof {
        law_window_cuts_on_char_boundaries(width as int, line@, s as int, e as int);
    }
    let len = line.as_bytes().len();
    let m = e - s;
    let w = if width > m {
        width
    } else {
        m
    };
    if w == m {
        return (s, false, e, false);
    }
    let half = (w - m) / 2;
    let (left, right) = if s < w / 2 {
        let l = if s < half {
            s
        } else {
            half
        };
        (l, w - m - l)
    } else {
        let r = if len - e < half {
            len - e
        } else {
            half
        };
        (w - m - r, r)
    };
    assert((left as int, right as int) == margins(w as int, len as int, s as int, e as int));
    let (start, before) = if s > left {
        if left <= ELLIPSIS_LEN {
            (0, false)
        } else {
            let mut off: usize = s - left + ELLIPSIS_LEN;
            while off < s && !line.is_char_boundary(off)
                invariant
                    b == line.spec_bytes(),
                    off <= s,
                    slide_up(b, s - left + 6, s as int) == slide_up(b, off as int, s as int),
                decreases s - off,
            {
                assert(slide_up(b, off as int, s as int) == slide_up(b, off + 1, s as int));
                off += 1;
            }
            (off, true)
        }
    } else {
        (0, false)
    };
    let (end, after) = if len - e > right {
        if right <= ELLIPSIS_LEN {
            (len, false)
        } else {
            let mut off: usize = e + right - ELLIPSIS_LEN;
            while off > e && !line.is_char_boundary(off)
                invariant
                    b == line.spec_bytes(),
                    e <= off,
                    slide_down(b, e + right - 6, e as int) == slide_down(b, off as int, e as int),
                decreases off - e,
            {
                assert(slide_down(b, off as int, e as int) == slide_down(b, off - 1, e as int));
                off -= 1;
            }
            (off, true)
        }
    } else {
        (len, false)
    };
    (start, before, end, after)
}

/// How records are shown: with the line and its matches, or as the path alone.
#[derive(Clone, Copy)]
pub enum Format {
    Rich { colour: bool, match_only: bool, no_path: bool, no_lno: bool },
    PathOnly { colour: bool },
}

/// Every match of a line highlighted, the whole line shown.
pub open spec fn many_upto(line: Seq<char>, ns: Seq<Match>, colour: bool, k: int) -> Seq<char>
    decreases k,
{
    if k <= 0 {
        Seq::empty()
    } else {
        let from = if k == 1 {
            0
        } else {
            ns[k - 2].end as int
        };
        many_upto(line, ns, colour, k - 1) + between(line, from, ns[k - 1].start as int) + tinted(
            colour,
            Tint::Red,
            between(line, ns[k - 1].start as int, ns[k - 1].end as int),
        )
    }
}

pub open spec fn many_text(line: Seq<char>, ns: Seq<Match>, colour: bool) -> Seq<char> {
    many_upto(line, ns, colour, ns.len() as int) + between(
        line,
        ns[ns.len() - 1].end as int,
        encode_utf8(line).len() as int,
    )
}

/// One output line per match: the prefix and the matched text, joined by
/// line feeds.
pub open spec fn needles_upto(prefix: Seq<char>, line: Seq<char>, ns: Seq<Match>, colour: bool, k: int) -> Seq<char>
    decreases k,
{
    let item = prefix + tinted(
        colour,
        Tint::Red,
        between(line, ns[k - 1].start as int, ns[k - 1].end as int),
    );
    if k <= 0 {
        Seq::empty()
    } else if k == 1 {
        item
    } else {
        needles_upto(prefix, line, ns, colour, k - 1) + seq!['\n'] + item
    }
}

/// The body of a rich record: the line alone, a window around its single
/// match, or the line with all its matches highlighted.
pub open spec fn rich_text(width: int, prefix: Seq<char>, line: Seq<char>, ns: Seq<Match>, colour: bool) -> Seq<char> {
    prefix + if ns.len() == 0 {
        line
    } else if ns.len() == 1 {
        one_text(width, line, ns[0].start as int, ns[0].end as int, colour)
    } else {
        many_text(line, ns, colour)
    }
}

impl Format {
    fn rich_format_many(&self, line: &str, needles: &Vec<Match>, colour: bool) -> (r: String)
        requires
            needles@.len() >= 1,
            well_placed(needles@, line.spec_bytes()),
        ensures
            r@ == many_text(line@, needles@, colour),
    {
        let ghost b = line.spec_bytes();
        proof {
            encode_utf8_valid_utf8(line@);
            is_char_boundary_start_end_of_seq(b);
        }
        let mut out = String::new();
        let mut i: usize = 0;
        while i < needles.len()
            invariant
                b == line.spec_bytes(),
                is_char_boundary(b, 0),
                i <= needles@.len(),
                well_placed(needles@, b),
                out@ == many_upto(line@, needles@, colour, i as int),
            decreases needles.len() - i,
        {
            let from = if i == 0 {
                0
            } else {
                needles[i - 1].end
            };
            assert(needles@[i as int].start <= needles@[i as int].end);
            let gap = substr(line, from, needles[i].start);
            let what = tint_exec(colour, Tint::Red, substr(line, needles[i].start, needles[i].end));
            out.append(gap);
            out.append(what.as_str());
            i += 1;
        }
        let last = needles[needles.len() - 1].end;
        let rest = substr(line, last, line.as_bytes().len());
        out.append(rest);
        out
    }

    fn rich_format_needles_only(&self, prefix: &str, line: &str, needles: &Vec<Match>, colour: bool) -> (r: String)
        requires
            well_placed(needles@, line.spec_bytes()),
        ensures
            r@ == needles_upto(prefix@, line@, needles@, colour, needles@.len() as int),
    {
        let mut out = String::new();
        let nl = string_of(&lit1('\n'));
        let mut i: usize = 0;
        while i < needles.len()
            invariant
                i <= needles@.len(),
                nl@ == seq!['\n'],
                well_placed(needles@, line.spec_bytes()),
                out@ == needles_upto(prefix@, line@, needles@, colour, i as int),
            decreases needles.len() - i,
        {
            if i > 0 {
                out.append(nl.as_str());
            }
            let what = tint_exec(colour, Tint::Red, substr(line, needles[i].start, needles[i].end));
            out.append(prefix);
            out.append(what.as_str());
            i += 1;
            assert(out@ =~= needles_upto(prefix@, line@, needles@, colour, i as int));
        }
        out
    }

    fn rich_format(&self, width: usize, prefix: &str, line: &str, needles: &Vec<Match>, colour: bool) -> (r: String)
        requires
            well_placed(needles@, line.spec_bytes()),
        ensures
            r@ == rich_text(width as int, prefix@, line@, needles@, colour),
    {
        let content = if needles.len() == 0 {
            line.to_owned()
        } else if needles.len() == 1 {
            assert(seq![needles@[0]] =~= needles@);
            self.rich_format_one(width, line, &needles[0], colour)
        } else {
            self.rich_format_many(line, needles, colour)
        };
        let mut r = prefix.to_owned();
        r.append(content.as_str());
        r
    }

    fn format_path(&self, path: &str, colour: bool) -> (r: String)
        ensures
            r@ == tinted(colour, Tint::Blue, path@),
    {
        tint_exec(colour, Tint::Blue, path)
    }

    pub open spec fn colour_on(&self) -> bool {
        match self {
            Format::Rich { colour, .. } => *colour,
            Format::PathOnly { .. } => false,
        }
    }

    fn separator(&self, separator: &str, code: u8) -> (r: String)
        ensures
            r@ == tinted(self.colour_on(), Tint::Fixed(code), separator@),
    {
        let colour = match self {
            Format::Rich { colour, .. } => *colour,
            _ => false,
        };
        tint_exec(colour, Tint::Fixed(code), separator)
    }

    /// The line between the outputs of two files: `--`, muted red.
    pub fn file_separator(&self) -> (r: String)
        ensures
            r@ == tinted(self.colour_on(), Tint::Fixed(203), seq!['-', '-']),
    {
        let sep = string_of(&['-', '-']);
        assert(sep@ =~= seq!['-', '-']);
        self.separator(sep.as_str(), 203)
    }

    /// The line between two groups of lines of one file: `..`, muted green.
    pub fn match_separator(&self) -> (r: String)
        ensures
            r@ == tinted(self.colour_on(), Tint::Fixed(120), seq!['.', '.']),
    {
        let sep = string_of(&['.', '.']);
        assert(sep@ =~= seq!['.', '.']);
        self.separator(sep.as_str(), 120)
    }

    fn rich_format_one(&self, width: usize, line: &str, needle: &Match, colour: bool) -> (r: String)
        requires
            well_placed(seq![*needle], line.spec_bytes()),
        ensures
            r@ == one_text(width as int, line@, needle.start as int, needle.end as int, colour),
    {
        assert(seq![*needle][0] == *needle);
        let (start, before, end, after) = window_exec(width, line, needle.start, needle.end);
        proof {
            law_window_cuts_on_char_boundaries(
                width as int,
                line@,
                needle.start as int,
                needle.end as int,
            );
        }
        let pre = if before {
            string_of(&['[', '.', '.', '.', ']', ' '])
        } else {
            String::new()
        };
        let suf = if after {
            string_of(&[' ', '[', '.', '.', '.', ']'])
        } else {
            String::new()
        };
        assert(pre@ == if before { left_ellipsis() } else { Seq::empty() }) by {
            if before {
                assert(pre@ =~= left_ellipsis());
            }
        }
        assert(suf@ == if after { right_ellipsis() } else { Seq::empty() }) by {
            if after {
                assert(suf@ =~= right_ellipsis());
            }
        }
        let head = tint_exec(colour, Tint::Purple, pre.as_str());
        let what = tint_exec(colour, Tint::Red, substr(line, needle.start, needle.end));
        let tail = tint_exec(colour, Tint::Purple, suf.as_str());
        concat5(
            head,
            substr(line, start, needle.start),
            what.as_str(),
            substr(line, needle.end, end),
            tail.as_str(),
        )
    }
}


/// The decimal digits of `n`.
pub open spec fn decimal(n: nat) -> Seq<char>
    decreases n,
{
    if n < 10 {
        seq![digit(n)]
    } else {
        decimal(n / 10) + seq![digit(n % 10)]
    }
}

pub open spec fn digit(d: nat) -> char {
    if d == 0 {
        '0'
    } else if d == 1 {
        '1'
    } else if d == 2 {
        '2'
    } else if d == 3 {
        '3'
    } else if d == 4 {
        '4'
    } else if d == 5 {
        '5'
    } else if d == 6 {
        '6'
    } else if d == 7 {
        '7'
    } else if d == 8 {
        '8'
    } else {
        '9'
    }
}

fn digit_exec(d: usize) -> (r: char)
    requires
        d < 10,
    ensures
        r == digit(d as nat),
{
    if d == 0 {
        '0'
    } else if d == 1 {
        '1'
    } else if d == 2 {
        '2'
    } else if d == 3 {
        '3'
    } else if d == 4 {
        '4'
    } else if d == 5 {
        '5'
    } else if d == 6 {
        '6'
    } else if d == 7 {
        '7'
    } else if d == 8 {
        '8'
    } else {
        '9'
    }
}

/// `n` written in decimal.
pub fn decimal_string(n: usize) -> (r: String)
    ensures
        r@ == decimal(n as nat),
    decreases n,
{
    let d = string_of(&lit1(digit_exec(n % 10)));
    if n < 10 {
        d
    } else {
        let mut r = decimal_string(n / 10);
        r.append(d.as_str());
        r
    }
}

/// A line to show: its number, its text, its matches, and the separator
/// that follows the path and the number (`:` for a match, `-` before it,
/// `+` after it).
pub struct DisplayContext {
    pub lno: usize,
    pub line: String,
    pub needle: Vec<Match>,
    pub lno_sep: String,
}

impl DisplayContext {
    pub fn new(lno: usize, line: String, needle: Vec<Match>) -> (r: DisplayContext)
        ensures
            r.lno == lno,
            r.line@ == line@,
            r.needle@ == needle@,
            r.lno_sep@ == seq![':'],
    {
        let sep = string_of(&lit1(':'));
        DisplayContext { lno, line, needle, lno_sep: sep }
    }

    pub fn with_lno_separator(lno: usize, line: String, needle: Vec<Match>, lno_sep: &str) -> (r: DisplayContext)
        ensures
            r.lno == lno,
            r.line@ == line@,
            r.needle@ == needle@,
            r.lno_sep@ == lno_sep@,
    {
        let mut ctx = Self::new(lno, line, needle);
        ctx.lno_sep = lno_sep.to_owned();
        ctx
    }

    /// Its matches lie within its line, in order, on character boundaries.
    pub open spec fn wf(&self) -> bool {
        well_placed(self.needle@, encode_utf8(self.line@))
    }
}

/// The prefix of a rich record: path and separator, number and separator,
/// then a space; empty when both pieces are left out.
pub open spec fn record_prefix(
    colour: bool,
    no_path: bool,
    no_lno: bool,
    path: Seq<char>,
    lno: nat,
    sep: Seq<char>,
) -> Seq<char> {
    let path_part = if no_path {
        Seq::empty()
    } else {
        tinted(colour, Tint::Blue, path) + tinted(colour, Tint::Cyan, sep)
    };
    let with_number = if no_lno {
        path_part
    } else {
        path_part + tinted(colour, Tint::Green, decimal(lno)) + tinted(colour, Tint::Cyan, sep)
    };
    if with_number.len() == 0 {
        with_number
    } else {
        with_number + seq![' ']
    }
}

/// What `Format::format` shows for a path and, maybe, a line of it.
pub open spec fn format_text(f: Format, width: int, path: Seq<char>, context: Option<DisplayContext>) -> Seq<char> {
    match f {
        Format::Rich { colour, match_only, no_path, no_lno } => match context {
            Some(c) => {
                let prefix = record_prefix(colour, no_path, no_lno, path, c.lno as nat, c.lno_sep@);
                if match_only {
                    needles_upto(prefix, c.line@, c.needle@, colour, c.needle@.len() as int)
                } else {
                    let plen = encode_utf8(prefix).len() as int;
                    let w = if width >= plen {
                        width - plen
                    } else {
                        0
                    };
                    rich_text(w, prefix, c.line@, c.needle@, colour)
                }
            },
            None => tinted(colour, Tint::Blue, path),
        },
        Format::PathOnly { colour } => tinted(colour, Tint::Blue, path),
    }
}

impl Format {
    /// The text of one record.
    pub fn format(&self, width: usize, path: &str, context: Option<DisplayContext>) -> (r: String)
        requires
            context matches Some(c) ==> c.wf(),
        ensures
            r@ == format_text(*self, width as int, path@, context),
    {
        match self {
            Format::Rich { colour, match_only, no_path, no_lno } => match context {
                Some(ctx) => {
                    let colour = *colour;
                    let mut prefix = String::new();
                    if !*no_path {
                        prefix.append(tint_exec(colour, Tint::Blue, path).as_str());
                        prefix.append(tint_exec(colour, Tint::Cyan, ctx.lno_sep.as_str()).as_str());
                    }
                    if !*no_lno {
                        let lno = decimal_string(ctx.lno);
                        prefix.append(tint_exec(colour, Tint::Green, lno.as_str()).as_str());
                        prefix.append(tint_exec(colour, Tint::Cyan, ctx.lno_sep.as_str()).as_str());
                    }
                    if prefix.as_str().as_bytes().len() > 0 {
                        let space = string_of(&lit1(' '));
                        prefix.append(space.as_str());
                    }
                    proof {
                        let want = record_prefix(
                            colour,
                            *no_path,
                            *no_lno,
                            path@,
                            ctx.lno as nat,
                            ctx.lno_sep@,
                        );
                        if prefix@.len() == 0 {
                            assert(prefix@ =~= Seq::<char>::empty());
                        }
                        assert(prefix@ =~= want) by {
                            let path_part = if *no_path {
                                Seq::<char>::empty()
                            } else {
                                tinted(colour, Tint::Blue, path@) + tinted(colour, Tint::Cyan, ctx.lno_sep@)
                            };
                            let with_number = if *no_lno {
                                path_part
                            } else {
                                path_part + tinted(colour, Tint::Green, decimal(ctx.lno as nat)) + tinted(
                                    colour,
                                    Tint::Cyan,
                                    ctx.lno_sep@,
                                )
                            };
                            assert(encode_utf8(with_number).len() == 0 <==> with_number.len() == 0) by {
                                if with_number.len() > 0 {
                                    crate::text::lemma_encode_nonempty(with_number);
                                }
                            }
                        }
                    }
                    if *match_only {
                        self.rich_format_needles_only(prefix.as_str(), ctx.line.as_str(), &ctx.needle, colour)
                    } else {
                        let plen = prefix.as_str().as_bytes().len();
                        let w = if width >= plen {
                            width - plen
                        } else {
                            0
                        };
                        self.rich_format(w, prefix.as_str(), ctx.line.as_str(), &ctx.needle, colour)
                    }
                },
                None => self.format_path(path, *colour),
            },
            Format::PathOnly { colour } => self.format_path(path, *colour),
        }
    }
}


/// The path shown for an entry: the prefix, then what follows the root in
/// the entry's path; the entry itself when there is no root.
pub open spec fn shown_path(root: Option<Seq<char>>, prefix: Seq<char>, entry: Seq<char>) -> Seq<char> {
    match root {
        None => entry,
        Some(r) => if entry == r {
            prefix
        } else if starts_with(entry, r + seq!['/']) {
            prefix + entry.subrange(r.len() + 1int, entry.len() as int)
        } else if r.len() > 0 && r.last() == '/' && starts_with(entry, r) {
            prefix + entry.subrange(r.len() as int, entry.len() as int)
        } else {
            prefix + entry
        },
    }
}

/// Renders records of files found under one root into writers.
pub struct DisplayTerminal {
    pub width: usize,
    pub format: Format,
    pub root: Option<String>,
    pub prefix: String,
}

pub open spec fn opt_text(s: Option<String>) -> Option<Seq<char>> {
    match s {
        Some(t) => Some(t@),
        None => None,
    }
}

fn copy_context(c: &DisplayContext) -> (r: DisplayContext)
    ensures
        r.lno == c.lno,
        r.line@ == c.line@,
        r.needle@ == c.needle@,
        r.lno_sep@ == c.lno_sep@,
{
    let mut needle: Vec<Match> = Vec::new();
    let mut i: usize = 0;
    while i < c.needle.len()
        invariant
            i <= c.needle@.len(),
            needle@ == c.needle@.subrange(0, i as int),
        decreases c.needle.len() - i,
    {
        needle.push(c.needle[i]);
        i += 1;
        assert(needle@ =~= c.needle@.subrange(0, i as int));
    }
    assert(c.needle@.subrange(0, c.needle@.len() as int) =~= c.needle@);
    DisplayContext::with_lno_separator(c.lno, c.line.clone(), needle, c.lno_sep.as_str())
}

impl DisplayTerminal {
    /// `root` is the absolute path walked, shown as `prefix`; without a
    /// root, paths are shown as they are.
    pub fn new(width: usize, format: Format, root: Option<String>, prefix: String) -> (r: DisplayTerminal)
        ensures
            r.width == width,
            r.format == format,
            opt_text(r.root) == opt_text(root),
            r.prefix@ == prefix@,
    {
        DisplayTerminal { width, format, root, prefix }
    }

    pub fn path_text(&self, entry: &str) -> (r: String)
        ensures
            r@ == shown_path(opt_text(self.root), self.prefix@, entry@),
    {
        match &self.root {
            None => entry.to_owned(),
            Some(root) => {
                let e = chars_of(entry);
                let r = chars_of(root.as_str());
                let n = r.len();
                let mut out = self.prefix.clone();
                if e.len() == n && chars_at(&e, 0, &r) {
                    assert(e@ =~= r@) by {
                        assert(e@.subrange(0, n as int) =~= e@);
                    }
                    return out;
                }
                assert(e@ != r@) by {
                    if e@ == r@ {
                        assert(e@.subrange(0, n as int) =~= e@);
                    }
                }
                let mut rs = chars_slice(&r, 0, n);
                rs.push('/');
                assert(rs@ =~= r@ + seq!['/']);
                if chars_at(&e, 0, &rs) {
                    let rest = string_of(&chars_slice(&e, n + 1, e.len()));
                    out.append(rest.as_str());
                    return out;
                }
                if n > 0 && r[n - 1] == '/' && chars_at(&e, 0, &r) {
                    let rest = string_of(&chars_slice(&e, n, e.len()));
                    out.append(rest.as_str());
                    return out;
                }
                out.append(entry);
                out
            },
        }
    }

    /// Writes one record: the path and, maybe, a line of it.
    pub fn display(&self, entry: &str, context: Option<DisplayContext>, out: &mut BufferedWriter)
        requires
            context matches Some(c) ==> c.wf(),
        ensures
            final(out)@ == old(out)@.push(
                format_text(
                    self.format,
                    self.width as int,
                    shown_path(opt_text(self.root), self.prefix@, entry@),
                    context,
                ),
            ),
    {
        let path = self.path_text(entry);
        let text = self.format.format(self.width, path.as_str(), context);
        out.push_line(text.as_str());
    }

    pub fn file_separator(&self, out: &mut BufferedWriter)
        ensures
            final(out)@ == old(out)@.push(
                tinted(self.format.colour_on(), Tint::Fixed(203), seq!['-', '-']),
            ),
    {
        let text = self.format.file_separator();
        out.push_line(text.as_str());
    }

    pub fn match_separator(&self, out: &mut BufferedWriter)
        ensures
            final(out)@ == old(out)@.push(
                tinted(self.format.colour_on(), Tint::Fixed(120), seq!['.', '.']),
            ),
    {
        let text = self.format.match_separator();
        out.push_line(text.as_str());
    }

    /// Writes the records of one file, in order: a line record with its
    /// line, a path record as the path alone, a separator as `..`.
    pub fn render(&self, entry: &str, records: &Vec<Record>, out: &mut BufferedWriter)
        requires
            forall|i: int|
                0 <= i < records@.len() ==> (#[trigger] records@[i] matches Record::Line(c) ==> c.wf()),
        ensures
            final(out)@.len() == old(out)@.len() + records@.len(),
            forall|i: int| 0 <= i < old(out)@.len() ==> #[trigger] final(out)@[i] == old(out)@[i],
            forall|i: int|
                0 <= i < records@.len() ==> #[trigger] final(out)@[old(out)@.len() + i] == match records@[i] {
                    Record::Line(c) => format_text(
                        self.format,
                        self.width as int,
                        shown_path(opt_text(self.root), self.prefix@, entry@),
                        Some(c),
                    ),
                    Record::Path => format_text(
                        self.format,
                        self.width as int,
                        shown_path(opt_text(self.root), self.prefix@, entry@),
                        None,
                    ),
                    Record::MatchSeparator => tinted(
                        self.format.colour_on(),
                        Tint::Fixed(120),
                        seq!['.', '.'],
                    ),
                },
    {
        let ghost start = out@;
        let mut i: usize = 0;
        while i < records.len()
            invariant
                i <= records@.len(),
                forall|x: int|
                    0 <= x < records@.len() ==> (#[trigger] records@[x] matches Record::Line(c) ==> c.wf()),
                out@.len() == start.len() + i,
                forall|x: int| 0 <= x < start.len() ==> out@[x] == start[x],
                forall|x: int|
                    0 <= x < i ==> #[trigger] out@[start.len() + x] == match records@[x] {
                        Record::Line(c) => format_text(
                            self.format,
                            self.width as int,
                            shown_path(opt_text(self.root), self.prefix@, entry@),
                            Some(c),
                        ),
                        Record::Path => format_text(
                            self.format,
                            self.width as int,
                            shown_path(opt_text(self.root), self.prefix@, entry@),
                            None,
                        ),
                        Record::MatchSeparator => tinted(
                            self.format.colour_on(),
                            Tint::Fixed(120),
                            seq!['.', '.'],
                        ),
                    },
            decreases records.len() - i,
        {
            match &records[i] {
                Record::Line(c) => {
                    let copy = copy_context(c);
                    assert(format_text(
                        self.format,
                        self.width as int,
                        shown_path(opt_text(self.root), self.prefix@, entry@),
                        Some(copy),
                    ) == format_text(
                        self.format,
                        self.width as int,
                        shown_path(opt_text(self.root), self.prefix@, entry@),
                        Some(*c),
                    ));
                    self.display(entry, Some(copy), out);
                },
                Record::Path => {
                    self.display(entry, None, out);
                },
                Record::MatchSeparator => {
                    self.match_separator(out);
                },
            }
            i += 1;
        }
        assert(old(out)@ == start);
    }
}

} // verus!
