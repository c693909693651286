//! Gitignore patterns: parsing a line, classifying the result into a shape,
//! and matching paths against shapes, sets and layers.
use vstd::prelude::*;
use vstd::string::StringSliceAdditionalSpecFns;
use crate::text::{
    chars_at, chars_of, chars_slice, contains, contains_at, ends_with, ends_with_chars, is_white,
    is_white_char, lit1, lit2, lit3, lit4, memmem_find, memrchr_find, starts_with,
    starts_with_bytes, starts_with_chars, ends_with_bytes, string_of, utf8_of, bytes_at,
};
use vstd::utf8::{encode_utf8, is_char_boundary};

verus! {

pub open spec fn trim_start(s: Seq<char>) -> Seq<char>
    decreases s.len(),
{
    if s.len() > 0 && is_white(s[0]) {
        trim_start(s.subrange(1, s.len() as int))
    } else {
        s
    }
}

pub open spec fn trim_end(s: Seq<char>) -> Seq<char>
    decreases s.len(),
{
    if s.len() > 0 && is_white(s.last()) {
        trim_end(s.drop_last())
    } else {
        s
    }
}

/// `s` without its trailing `c` characters.
pub open spec fn trim_end_char(s: Seq<char>, c: char) -> Seq<char>
    decreases s.len(),
{
    if s.len() > 0 && s.last() == c {
        trim_end_char(s.drop_last(), c)
    } else {
        s
    }
}

/// `s` without its leading `c` characters.
pub open spec fn trim_start_char(s: Seq<char>, c: char) -> Seq<char>
    decreases s.len(),
{
    if s.len() > 0 && s[0] == c {
        trim_start_char(s.subrange(1, s.len() as int), c)
    } else {
        s
    }
}

/// `s` without its trailing `/*` pairs.
pub open spec fn trim_end_slash_star(s: Seq<char>) -> Seq<char>
    decreases s.len(),
{
    if ends_with(s, seq!['/', '*']) {
        trim_end_slash_star(s.subrange(0, s.len() - 2))
    } else {
        s
    }
}

/// Every `\ ` replaced by a space, from left to right.
pub open spec fn unescape_spaces(s: Seq<char>) -> Seq<char>
    decreases s.len(),
{
    if s.len() == 0 {
        s
    } else if s.len() >= 2 && s[0] == '\\' && s[1] == ' ' {
        seq![' '] + unescape_spaces(s.subrange(2, s.len() as int))
    } else {
        seq![s[0]] + unescape_spaces(s.subrange(1, s.len() as int))
    }
}

/// The text of a gitignore line once blanks, comments, escapes and the
/// negation mark are dealt with, and whether the line was negated (`!`).
/// `None` for a blank line or a comment.
pub open spec fn clean_line(line: Seq<char>) -> Option<(Seq<char>, bool)> {
    let a = trim_start(line);
    let b = if ends_with(a, seq!['\\', ' ']) {
        a
    } else if trim_end(a) == seq!['\\'] {
        seq![' ']
    } else {
        trim_end(a)
    };
    if b.len() == 0 || b[0] == '#' {
        None
    } else {
        let c = unescape_spaces(b);
        let negated = c.len() > 0 && c[0] == '!';
        let d = if negated { c.subrange(1, c.len() as int) } else { c };
        let e = if starts_with(d, seq!['\\', '#']) || starts_with(d, seq!['\\', '!']) {
            d.subrange(1, d.len() as int)
        } else {
            d
        };
        let f = if starts_with(e, seq!['.', '/']) { e.subrange(1, e.len() as int) } else { e };
        Some((f, negated))
    }
}

/// A `/` stands somewhere before the last character.
pub open spec fn inner_slash(p: Seq<char>) -> bool {
    exists|i: int| 0 <= i < p.len() - 1 && p[i] == '/'
}

pub open spec fn is_root_anchored(p: Seq<char>) -> bool {
    starts_with(p, seq!['/']) || (inner_slash(p) && !starts_with(p, seq!['*', '*', '/'])
        && !contains(p, seq!['/', '*', '*', '/']))
}

pub open spec fn is_dir_only(p: Seq<char>) -> bool {
    ends_with(p, seq!['/']) || ends_with(p, seq!['/', '*'])
}

/// The anchored form of a cleaned pattern (rooted at `/` or under `**/`), and
/// whether it applies to directories only.
pub open spec fn anchor(p: Seq<char>) -> (Seq<char>, bool) {
    let g = trim_end_slash_star(trim_end_char(p, '/'));
    let q = if is_root_anchored(p) {
        seq!['/'] + trim_start_char(g, '/')
    } else if !starts_with(g, seq!['*', '*', '/']) {
        seq!['*', '*', '/'] + g
    } else {
        g
    };
    (q, is_dir_only(p))
}

proof fn lemma_trim_start_step(s: Seq<char>, i: int)
    requires
        0 <= i < s.len(),
        is_white(s[i]),
    ensures
        trim_start(s.subrange(i, s.len() as int)) == trim_start(s.subrange(i + 1, s.len() as int)),
{
    assert(s.subrange(i, s.len() as int).subrange(1, s.len() - i) =~= s.subrange(i + 1, s.len() as int));
}

fn trim_start_exec(s: &[char]) -> (r: Vec<char>)
    ensures
        r@ == trim_start(s@),
{
    let mut i: usize = 0;
    assert(s@.subrange(0, s@.len() as int) =~= s@);
    while i < s.len() && is_white_char(s[i])
        invariant
            i <= s.len(),
            trim_start(s@) == trim_start(s@.subrange(i as int, s@.len() as int)),
        decreases s.len() - i,
    {
        proof {
            lemma_trim_start_step(s@, i as int);
        }
        i += 1;
    }
    chars_slice(s, i, s.len())
}

fn trim_end_exec(s: &[char]) -> (r: Vec<char>)
    ensures
        r@ == trim_end(s@),
{
    let mut j: usize = s.len();
    assert(s@.subrange(0, s@.len() as int) =~= s@);
    while j > 0 && is_white_char(s[j - 1])
        invariant
            j <= s.len(),
            trim_end(s@) == trim_end(s@.subrange(0, j as int)),
        decreases j,
    {
        assert(s@.subrange(0, j as int).drop_last() =~= s@.subrange(0, j - 1));
        j -= 1;
    }
    chars_slice(s, 0, j)
}

fn trim_end_char_exec(s: &[char], c: char) -> (r: Vec<char>)
    ensures
        r@ == trim_end_char(s@, c),
{
    let mut j: usize = s.len();
    assert(s@.subrange(0, s@.len() as int) =~= s@);
    while j > 0 && s[j - 1] == c
        invariant
            j <= s.len(),
            trim_end_char(s@, c) == trim_end_char(s@.subrange(0, j as int), c),
        decreases j,
    {
        assert(s@.subrange(0, j as int).drop_last() =~= s@.subrange(0, j - 1));
        j -= 1;
    }
    chars_slice(s, 0, j)
}

fn trim_start_char_exec(s: &[char], c: char) -> (r: Vec<char>)
    ensures
        r@ == trim_start_char(s@, c),
{
    let mut i: usize = 0;
    assert(s@.subrange(0, s@.len() as int) =~= s@);
    while i < s.len() && s[i] == c
        invariant
            i <= s.len(),
            trim_start_char(s@, c) == trim_start_char(s@.subrange(i as int, s@.len() as int), c),
        decreases s.len() - i,
    {
        assert(s@.subrange(i as int, s@.len() as int).subrange(1, s@.len() - i) =~= s@.subrange(
            i + 1,
            s@.len() as int,
        ));
        i += 1;
    }
    chars_slice(s, i, s.len())
}

fn trim_end_slash_star_exec(s: &[char]) -> (r: Vec<char>)
    ensures
        r@ == trim_end_slash_star(s@),
{
    let mut j: usize = s.len();
    assert(s@.subrange(0, s@.len() as int) =~= s@);
    while j >= 2 && s[j - 2] == '/' && s[j - 1] == '*'
        invariant
            j <= s.len(),
            trim_end_slash_star(s@) == trim_end_slash_star(s@.subrange(0, j as int)),
        decreases j,
    {
        let ghost t = s@.subrange(0, j as int);
        assert(t.subrange(t.len() - 2, t.len() as int) =~= seq!['/', '*']);
        assert(t.subrange(0, t.len() - 2) =~= s@.subrange(0, j - 2));
        j -= 2;
    }
    let ghost t = s@.subrange(0, j as int);
    assert(j >= 2 ==> t.subrange(t.len() - 2, t.len() as int)[0] == s@[j - 2]);
    assert(j >= 2 ==> t.subrange(t.len() - 2, t.len() as int)[1] == s@[j - 1]);
    chars_slice(s, 0, j)
}

fn unescape_spaces_exec(s: &[char]) -> (r: Vec<char>)
    ensures
        r@ == unescape_spaces(s@),
{
    let mut out: Vec<char> = Vec::new();
    let mut i: usize = 0;
    assert(s@.subrange(0, s@.len() as int) =~= s@);
    while i < s.len()
        invariant
            i <= s.len(),
            out@ + unescape_spaces(s@.subrange(i as int, s@.len() as int)) == unescape_spaces(s@),
        decreases s.len() - i,
    {
        let ghost rest = s@.subrange(i as int, s@.len() as int);
        if i + 1 < s.len() && s[i] == '\\' && s[i + 1] == ' ' {
            out.push(' ');
            assert(rest.subrange(2, rest.len() as int) =~= s@.subrange(i + 2, s@.len() as int));
            i += 2;
        } else {
            out.push(s[i]);
            assert(rest.subrange(1, rest.len() as int) =~= s@.subrange(i + 1, s@.len() as int));
            i += 1;
        }
        assert(out@ + unescape_spaces(s@.subrange(i as int, s@.len() as int)) =~= unescape_spaces(s@));
    }
    assert(out@ + unescape_spaces(s@.subrange(i as int, s@.len() as int)) =~= out@);
    out
}


fn contains_exec(s: &[char], p: &[char]) -> (r: bool)
    ensures
        r == contains(s@, p@),
{
    let mut i: usize = 0;
    while i < s.len()
        invariant
            i <= s.len(),
            forall|j: int| 0 <= j < i ==> !contains_at(s@, p@, j),
        decreases s.len() - i,
    {
        if chars_at(s, i, p) {
            return true;
        }
        i += 1;
    }
    chars_at(s, s.len(), p)
}

fn inner_slash_exec(p: &[char]) -> (r: bool)
    ensures
        r == inner_slash(p@),
{
    let mut i: usize = 0;
    while p.len() > 0 && i < p.len() - 1
        invariant
            forall|j: int| 0 <= j < i ==> p@[j] != '/',
        decreases p.len() - i,
    {
        if p[i] == '/' {
            return true;
        }
        i += 1;
    }
    false
}

/// Removes the first character of `s`.
fn drop_first_exec(s: Vec<char>) -> (r: Vec<char>)
    requires
        s@.len() > 0,
    ensures
        r@ == s@.subrange(1, s@.len() as int),
{
    chars_slice(&s, 1, s.len())
}

fn clean_line_exec(line: &[char]) -> (r: Option<(Vec<char>, bool)>)
    ensures
        match r {
            Some((p, negated)) => clean_line(line@) == Some((p@, negated)),
            None => clean_line(line@) is None,
        },
{
    let a = trim_start_exec(line);
    let b = if ends_with_chars(&a, &lit2('\\', ' ')) {
        a
    } else {
        let t = trim_end_exec(&a);
        if t.len() == 1 && t[0] == '\\' {
            assert(t@ =~= seq!['\\']);
            lit1(' ')
        } else {
            assert(t@ != seq!['\\']);
            t
        }
    };
    if b.len() == 0 || b[0] == '#' {
        return None;
    }
    let c = unescape_spaces_exec(&b);
    let negated = c.len() > 0 && c[0] == '!';
    let d = if negated { drop_first_exec(c) } else { c };
    let e = if starts_with_chars(&d, &lit2('\\', '#')) || starts_with_chars(&d, &lit2('\\', '!')) {
        drop_first_exec(d)
    } else {
        d
    };
    let f = if starts_with_chars(&e, &lit2('.', '/')) {
        drop_first_exec(e)
    } else {
        e
    };
    Some((f, negated))
}

fn anchor_exec(p: &[char]) -> (r: (Vec<char>, bool))
    ensures
        anchor(p@) == (r.0@, r.1),
{
    let root = starts_with_chars(p, &lit1('/')) || (inner_slash_exec(p) && !starts_with_chars(
        p,
        &lit3('*', '*', '/'),
    ) && !contains_exec(p, &lit4('/', '*', '*', '/')));
    let dir_only = ends_with_chars(p, &lit1('/')) || ends_with_chars(p, &lit2('/', '*'));
    let g1 = trim_end_char_exec(p, '/');
    let g = trim_end_slash_star_exec(&g1);
    let q = if root {
        let mut q = lit1('/');
        let h = trim_start_char_exec(&g, '/');
        q.extend_from_slice(&h);
        q
    } else if !starts_with_chars(&g, &lit3('*', '*', '/')) {
        let mut q = lit3('*', '*', '/');
        q.extend_from_slice(&g);
        q
    } else {
        g
    };
    proof {
        assert(root == is_root_anchored(p@));
        assert(dir_only == is_dir_only(p@));
    }
    (q, dir_only)
}


pub open spec fn is_glob_char(c: char) -> bool {
    c == '*' || c == '?' || c == '[' || c == ']'
}

/// No character with a meaning in a glob.
pub open spec fn literal(s: Seq<char>) -> bool {
    forall|i: int| 0 <= i < s.len() ==> !is_glob_char(s[i])
}

/// A literal that names one path component.
pub open spec fn plain_name(s: Seq<char>) -> bool {
    literal(s) && forall|i: int| 0 <= i < s.len() ==> s[i] != '/'
}

/// Index of the first glob character of `s`, or its length.
pub open spec fn first_glob(s: Seq<char>) -> int
    decreases s.len(),
{
    if s.len() == 0 || is_glob_char(s[0]) {
        0
    } else {
        1 + first_glob(s.subrange(1, s.len() as int))
    }
}

/// For `**/h/**/t` with literal `h` and `t`: the pair `(h, t)`.
pub open spec fn double_star_parts(q: Seq<char>) -> Option<(Seq<char>, Seq<char>)> {
    if starts_with(q, seq!['*', '*', '/']) {
        let r = q.subrange(3, q.len() as int);
        let k = first_glob(r);
        if 1 <= k && r[k - 1] == '/' && contains_at(r, seq!['*', '*', '/'], k) && literal(
            r.subrange(k + 3, r.len() as int),
        ) {
            Some((r.subrange(0, k - 1), r.subrange(k + 3, r.len() as int)))
        } else {
            None
        }
    } else {
        None
    }
}

/// What a compiled pattern tests, over the UTF-8 bytes of a path.
pub enum Shape {
    Any,
    Exact(Seq<u8>),
    Prefix(Seq<u8>),
    Suffix(Seq<u8>),
    StarSuffix(Seq<u8>),
    PrefixStar(Seq<u8>),
    DoubleStar(Seq<u8>, Seq<u8>),
    Glob(Seq<char>),
}

/// The shape of an anchored pattern; the first rule that applies wins.
pub open spec fn classify(q: Seq<char>) -> Shape {
    let n = q.len() as int;
    if q == seq!['*'] || q == seq!['*', '*', '/', '*'] {
        Shape::Any
    } else if starts_with(q, seq!['*', '*', '/', '*']) && plain_name(q.subrange(4, n)) {
        Shape::StarSuffix(encode_utf8(q.subrange(4, n)))
    } else if starts_with(q, seq!['*', '*', '/']) && literal(q.subrange(2, n)) {
        Shape::Suffix(encode_utf8(q.subrange(2, n)))
    } else if starts_with(q, seq!['*', '*', '/']) && n >= 4 && q[n - 1] == '*' && plain_name(
        q.subrange(3, n - 1),
    ) {
        Shape::PrefixStar(encode_utf8(q.subrange(3, n - 1)))
    } else if starts_with(q, seq!['/']) && q[n - 1] == '*' && literal(q.subrange(0, n - 1)) {
        Shape::Prefix(encode_utf8(q.subrange(0, n - 1)))
    } else if let Some((h, t)) = double_star_parts(q) {
        Shape::DoubleStar(encode_utf8(h), encode_utf8(t))
    } else if starts_with(q, seq!['/']) && literal(q) {
        Shape::Exact(encode_utf8(q))
    } else {
        Shape::Glob(q)
    }
}

/// `i` is the offset of the last `/` in `p`.
pub open spec fn last_slash_at(p: Seq<u8>, i: int) -> bool {
    0 <= i < p.len() && p[i] == 0x2f && forall|j: int| i < j < p.len() ==> p[j] != 0x2f
}

/// Whether a shape matches a path given by its bytes.
pub open spec fn shape_matches(shape: Shape, p: Seq<u8>) -> bool {
    match shape {
        Shape::Any => true,
        Shape::Exact(s) => p == s,
        Shape::Prefix(s) => p.len() > s.len() && starts_with(p, s),
        Shape::Suffix(s) => ends_with(p, s) && is_char_boundary(p, p.len() - s.len()),
        Shape::PrefixStar(s) => exists|i: int|
            last_slash_at(p, i) && p.len() - i - 1 > s.len() && starts_with(
                p.subrange(i + 1, p.len() as int),
                s,
            ),
        Shape::StarSuffix(s) => p.len() > s.len() && p[p.len() - s.len() - 1] != 0x2f
            && ends_with(p, s),
        Shape::DoubleStar(h, t) => p.len() > h.len() + t.len() && contains(p, h) && ends_with(
            p,
            t,
        ),
        Shape::Glob(g) => glob_matches(g, p),
    }
}

/// Whether `glob::Pattern::new` accepts the pattern.
pub uninterp spec fn glob_compiles(pattern: Seq<char>) -> bool;

/// Whether the compiled glob matches a path, given by its UTF-8 bytes.
pub uninterp spec fn glob_matches(pattern: Seq<char>, path: Seq<u8>) -> bool;

#[verifier::external_type_specification]
#[verifier::external_body]
pub struct ExGlobPattern(glob::Pattern);

/// A glob compiled once, kept with its text.
pub struct CompiledGlob {
    text: String,
    glob: glob::Pattern,
}

impl CompiledGlob {
    pub closed spec fn text(&self) -> Seq<char> {
        self.text@
    }
}

/// Relies on glob::Pattern::new: the compiled glob, kept with its text;
/// `None` when the pattern is refused.
#[verifier::external_body]
fn compile_glob(pattern: &str) -> (r: Option<CompiledGlob>)
    ensures
        r is Some == glob_compiles(pattern@),
        r matches Some(g) ==> g.text() == pattern@,
{
    match glob::Pattern::new(pattern) {
        Ok(glob) => Some(CompiledGlob { text: pattern.to_owned(), glob }),
        Err(_) => None,
    }
}

/// Relies on glob::Pattern::matches: whether the compiled glob matches the path.
#[verifier::external_body]
fn glob_test(g: &CompiledGlob, path: &str) -> (r: bool)
    ensures
        r == glob_matches(g.text(), path.spec_bytes()),
{
    g.glob.matches(path)
}

/// Relies on `Clone` for glob::Pattern: the same compiled glob.
#[verifier::external_body]
fn copy_glob(g: &CompiledGlob) -> (r: CompiledGlob)
    ensures
        r.text() == g.text(),
{
    CompiledGlob { text: g.text.clone(), glob: g.glob.clone() }
}

/// A compiled pattern: a literal shape where one applies, else a glob.
pub enum PatternType {
    Any,
    Exact(Vec<u8>),
    Prefix(Vec<u8>),
    Suffix(Vec<u8>),
    StarSuffix(Vec<u8>),
    PrefixStar(Vec<u8>),
    DoubleStar(Vec<u8>, Vec<u8>),
    Glob(CompiledGlob),
}

impl View for PatternType {
    type V = Shape;

    open spec fn view(&self) -> Shape {
        match self {
            PatternType::Any => Shape::Any,
            PatternType::Exact(s) => Shape::Exact(s@),
            PatternType::Prefix(s) => Shape::Prefix(s@),
            PatternType::Suffix(s) => Shape::Suffix(s@),
            PatternType::StarSuffix(s) => Shape::StarSuffix(s@),
            PatternType::PrefixStar(s) => Shape::PrefixStar(s@),
            PatternType::DoubleStar(h, t) => Shape::DoubleStar(h@, t@),
            PatternType::Glob(g) => Shape::Glob(g.text()),
        }
    }
}

fn literal_exec(s: &[char], from: usize, to: usize, no_slash: bool) -> (r: bool)
    requires
        from <= to <= s@.len(),
    ensures
        r == if no_slash {
            plain_name(s@.subrange(from as int, to as int))
        } else {
            literal(s@.subrange(from as int, to as int))
        },
{
    let mut i: usize = from;
    while i < to
        invariant
            from <= i <= to <= s@.len(),
            forall|j: int|
                from <= j < i ==> !is_glob_char(s@[j]) && (no_slash ==> s@[j] != '/'),
        decreases to - i,
    {
        let c = s[i];
        if c == '*' || c == '?' || c == '[' || c == ']' || (no_slash && c == '/') {
            assert(s@.subrange(from as int, to as int)[i - from] == c);
            return false;
        }
        i += 1;
    }
    true
}

fn first_glob_exec(s: &[char], from: usize) -> (k: usize)
    requires
        from <= s@.len(),
    ensures
        k as int == first_glob(s@.subrange(from as int, s@.len() as int)),
        from + k <= s@.len(),
{
    let mut i: usize = from;
    while i < s.len() && !(s[i] == '*' || s[i] == '?' || s[i] == '[' || s[i] == ']')
        invariant
            from <= i <= s@.len(),
            first_glob(s@.subrange(from as int, s@.len() as int)) == (i - from) + first_glob(
                s@.subrange(i as int, s@.len() as int),
            ),
        decreases s.len() - i,
    {
        assert(s@.subrange(i as int, s@.len() as int).subrange(1, s@.len() - i) =~= s@.subrange(
            i + 1,
            s@.len() as int,
        ));
        i += 1;
    }
    i - from
}

fn double_star_exec(q: &[char]) -> (r: Option<(Vec<char>, Vec<char>)>)
    ensures
        match r {
            Some((h, t)) => double_star_parts(q@) == Some((h@, t@)),
            None => double_star_parts(q@) is None,
        },
{
    if !starts_with_chars(q, &lit3('*', '*', '/')) {
        return None;
    }
    let ghost r = q@.subrange(3, q@.len() as int);
    let n = q.len();
    let k = first_glob_exec(q, 3);
    assert(3 + k <= n);
    let at: usize = 3 + k;
    if k >= 1 && q[at - 1] == '/' && chars_at(q, at, &lit3('*', '*', '/')) && literal_exec(
        q,
        at + 3,
        q.len(),
        false,
    ) {
        assert(r[k - 1] == q@[3 + k - 1]);
        assert(r.subrange(k as int, k + 3) =~= q@.subrange(3 + k, 3 + k + 3));
        assert(r.subrange(k + 3, r.len() as int) =~= q@.subrange(3 + k + 3, q@.len() as int));
        let h = chars_slice(q, 3, at - 1);
        let t = chars_slice(q, at + 3, q.len());
        assert(r.subrange(0, k - 1) =~= h@);
        Some((h, t))
    } else {
        proof {
            if 1 <= k && r[k - 1] == '/' && contains_at(r, seq!['*', '*', '/'], k as int) {
                assert(r.subrange(k as int, k + 3) =~= q@.subrange(3 + k, 3 + k + 3));
                assert(r.subrange(k + 3, r.len() as int) =~= q@.subrange(
                    3 + k + 3,
                    q@.len() as int,
                ));
            }
        }
        None
    }
}

fn classify_exec(q: &[char]) -> (r: Option<PatternType>)
    ensures
        match r {
            Some(k) => k@ == classify(q@) && (k@ matches Shape::Glob(g) ==> glob_compiles(g)),
            None => classify(q@) matches Shape::Glob(g) && !glob_compiles(g),
        },
{
    let n = q.len();
    if (n == 1 && q[0] == '*') || (n == 4 && starts_with_chars(q, &lit4('*', '*', '/', '*'))) {
        proof {
            if n == 1 {
                assert(q@ =~= seq!['*']);
            } else {
                assert(q@ =~= q@.subrange(0, 4));
            }
        }
        return Some(PatternType::Any);
    }
    proof {
        if q@ == seq!['*'] {
            assert(n == 1 && q@[0] == '*');
        }
        if q@ == seq!['*', '*', '/', '*'] {
            assert(q@.subrange(0, 4) =~= q@);
        }
    }
    let star3 = lit3('*', '*', '/');
    if starts_with_chars(q, &lit4('*', '*', '/', '*')) && literal_exec(q, 4, n, true) {
        return Some(PatternType::StarSuffix(utf8_of(&chars_slice(q, 4, n))));
    }
    if starts_with_chars(q, &star3) && literal_exec(q, 2, n, false) {
        return Some(PatternType::Suffix(utf8_of(&chars_slice(q, 2, n))));
    }
    if starts_with_chars(q, &star3) && n >= 4 && q[n - 1] == '*' && literal_exec(q, 3, n - 1, true) {
        return Some(PatternType::PrefixStar(utf8_of(&chars_slice(q, 3, n - 1))));
    }
    if starts_with_chars(q, &lit1('/')) && q[n - 1] == '*' && literal_exec(q, 0, n - 1, false) {
        return Some(PatternType::Prefix(utf8_of(&chars_slice(q, 0, n - 1))));
    }
    match double_star_exec(q) {
        Some((h, t)) => {
            return Some(PatternType::DoubleStar(utf8_of(&h), utf8_of(&t)));
        },
        None => {},
    }
    if starts_with_chars(q, &lit1('/')) && literal_exec(q, 0, n, false) {
        assert(q@.subrange(0, n as int) =~= q@);
        return Some(PatternType::Exact(utf8_of(q)));
    }
    assert(q@.subrange(0, n as int) =~= q@);
    let text = string_of(q);
    match compile_glob(text.as_str()) {
        Some(g) => Some(PatternType::Glob(g)),
        None => None,
    }
}


/// Every glob among the shapes is one that compiles.
pub open spec fn globs_compile(shapes: Seq<Shape>) -> bool {
    forall|i: int|
        0 <= i < shapes.len() ==> (#[trigger] shapes[i] matches Shape::Glob(g) ==> glob_compiles(g))
}

/// A compiled gitignore pattern.
pub struct GitPattern {
    kind: PatternType,
}

impl View for GitPattern {
    type V = Shape;

    closed spec fn view(&self) -> Shape {
        self.kind@
    }
}

fn copy_bytes(v: &Vec<u8>) -> (r: Vec<u8>)
    ensures
        r@ == v@,
{
    let r = crate::text::bytes_slice(v.as_slice(), 0, v.len());
    assert(v@.subrange(0, v@.len() as int) =~= v@);
    r
}

impl GitPattern {
    /// The pattern a glob fallback stands for compiles.
    pub open spec fn wf(&self) -> bool {
        self@ matches Shape::Glob(g) ==> glob_compiles(g)
    }

    /// Compiles an anchored pattern (one that starts with `/` or `**/`).
    /// `None` when it falls back to a glob that does not compile.
    pub fn new(pattern: &str) -> (r: Option<GitPattern>)
        ensures
            match r {
                Some(p) => p@ == classify(pattern@) && p.wf(),
                None => classify(pattern@) matches Shape::Glob(g) && !glob_compiles(g),
            },
    {
        let cs = chars_of(pattern);
        match classify_exec(&cs) {
            Some(kind) => Some(GitPattern { kind }),
            None => None,
        }
    }

    pub fn duplicate(&self) -> (r: GitPattern)
        ensures
            r@ == self@,
    {
        let kind = match &self.kind {
            PatternType::Any => PatternType::Any,
            PatternType::Exact(s) => PatternType::Exact(copy_bytes(s)),
            PatternType::Prefix(s) => PatternType::Prefix(copy_bytes(s)),
            PatternType::Suffix(s) => PatternType::Suffix(copy_bytes(s)),
            PatternType::StarSuffix(s) => PatternType::StarSuffix(copy_bytes(s)),
            PatternType::PrefixStar(s) => PatternType::PrefixStar(copy_bytes(s)),
            PatternType::DoubleStar(h, t) => PatternType::DoubleStar(copy_bytes(h), copy_bytes(t)),
            PatternType::Glob(g) => PatternType::Glob(copy_glob(g)),
        };
        GitPattern { kind }
    }

    /// Tests a path, already stripped of the pattern root.
    pub fn matches(&self, path: &str) -> (r: bool)
        requires
            self.wf(),
        ensures
            r == shape_matches(self@, path.spec_bytes()),
    {
        let p = path.as_bytes();
        assert(p@ == path.spec_bytes());
        assert(p@.subrange(0, p@.len() as int) =~= p@);
        let ghost want = shape_matches(self@, path.spec_bytes());
        match &self.kind {
            PatternType::Any => true,
            PatternType::Exact(s) => {
                let r = p.len() == s.len() && bytes_at(p, 0, s.as_slice());
                assert(r == want);
                r
            },
            PatternType::Prefix(s) => {
                let r = p.len() > s.len() && starts_with_bytes(p, s.as_slice());
                assert(r == want);
                r
            },
            PatternType::Suffix(s) => {
                let r = ends_with_bytes(p, s.as_slice()) && path.is_char_boundary(p.len() - s.len());
                assert(r == want);
                r
            },
            PatternType::PrefixStar(s) => {
                let r = match memrchr_find(0x2fu8, p) {
                    Some(pos) => {
                        let r = p.len() - pos - 1 > s.len() && bytes_at(p, pos + 1, s.as_slice());
                        proof {
                            let rest = p@.subrange(pos + 1, p@.len() as int);
                            assert(last_slash_at(p@, pos as int));
                            if p.len() - pos - 1 > s.len() {
                                assert(rest.subrange(0, s@.len() as int) =~= p@.subrange(
                                    pos + 1,
                                    pos + 1 + s@.len(),
                                ));
                            }
                            assert forall|i: int| last_slash_at(p@, i) implies i == pos by {
                                if i < pos {
                                    assert(p@[pos as int] == 0x2f);
                                }
                            }
                        }
                        r
                    },
                    None => false,
                };
                assert(r == want);
                r
            },
            PatternType::StarSuffix(s) => {
                let r = p.len() > s.len() && p[p.len() - s.len() - 1] != 0x2fu8 && ends_with_bytes(
                    p,
                    s.as_slice(),
                );
                assert(r == want);
                r
            },
            PatternType::DoubleStar(h, t) => {
                if h.len() > p.len() || p.len() - h.len() <= t.len() {
                    return false;
                }
                let found = memmem_find(p, h.as_slice());
                proof {
                    match found {
                        Some(i) => {
                            assert(contains_at(p@, h@, i as int));
                        },
                        None => {
                            if contains(p@, h@) {
                                let i = choose|i: int| contains_at(p@, h@, i);
                                assert(crate::text::occurs_at(p@, h@, i));
                            }
                        },
                    }
                }
                let r = found.is_some() && ends_with_bytes(p, t.as_slice());
                assert(r == want);
                r
            },
            PatternType::Glob(g) => glob_test(g, path),
        }
    }
}

/// The model of a pattern set: its root (as bytes) and its two lists of shapes.
pub struct SetView {
    pub root: Seq<u8>,
    pub dir_only: Seq<Shape>,
    pub all: Seq<Shape>,
}

/// The path with the root taken off its front, where it stands there.
pub open spec fn truncate(root: Seq<u8>, p: Seq<u8>) -> Seq<u8> {
    if starts_with(p, root) && is_char_boundary(p, root.len() as int) {
        p.subrange(root.len() as int, p.len() as int)
    } else {
        p
    }
}

pub open spec fn any_matches(shapes: Seq<Shape>, p: Seq<u8>) -> bool {
    exists|i: int| 0 <= i < shapes.len() && shape_matches(shapes[i], p)
}

/// A set matches when, the root taken off, one of its directory patterns
/// matches a directory, or one of its other patterns matches.
pub open spec fn set_matches(s: SetView, path: Seq<char>, is_dir: bool) -> bool {
    let t = truncate(s.root, encode_utf8(path));
    (is_dir && any_matches(s.dir_only, t)) || any_matches(s.all, t)
}

/// Patterns that share a root.
pub struct PatternSet {
    root: Vec<u8>,
    dir_only: Vec<GitPattern>,
    all: Vec<GitPattern>,
}

pub open spec fn shapes_of(ps: Seq<GitPattern>) -> Seq<Shape> {
    ps.map_values(|p: GitPattern| p@)
}

impl View for PatternSet {
    type V = SetView;

    closed spec fn view(&self) -> SetView {
        SetView {
            root: self.root@,
            dir_only: shapes_of(self.dir_only@),
            all: shapes_of(self.all@),
        }
    }
}

fn any_pattern_matches(ps: &Vec<GitPattern>, path: &str) -> (r: bool)
    requires
        globs_compile(shapes_of(ps@)),
    ensures
        r == any_matches(shapes_of(ps@), path.spec_bytes()),
{
    let mut i: usize = 0;
    while i < ps.len()
        invariant
            i <= ps@.len(),
            globs_compile(shapes_of(ps@)),
            forall|j: int| 0 <= j < i ==> !shape_matches(shapes_of(ps@)[j], path.spec_bytes()),
        decreases ps.len() - i,
    {
        assert(shapes_of(ps@)[i as int] == ps@[i as int]@);
        if ps[i].matches(path) {
            return true;
        }
        i += 1;
    }
    false
}

impl PatternSet {
    pub open spec fn wf(&self) -> bool {
        globs_compile(self@.dir_only) && globs_compile(self@.all)
    }

    /// An empty set rooted at `root`, taken without its trailing `/`.
    pub fn new(root: &str) -> (r: PatternSet)
        ensures
            r@ == (SetView {
                root: encode_utf8(trim_end_char(root@, '/')),
                dir_only: Seq::empty(),
                all: Seq::empty(),
            }),
            r.wf(),
    {
        let cs = chars_of(root);
        let trimmed = trim_end_char_exec(&cs, '/');
        let r = PatternSet { root: utf8_of(&trimmed), dir_only: Vec::new(), all: Vec::new() };
        assert(r@.dir_only =~= Seq::empty());
        assert(r@.all =~= Seq::empty());
        r
    }

    pub fn push(&mut self, pattern: GitPattern, dir_only: bool)
        requires
            old(self).wf(),
            pattern.wf(),
        ensures
            final(self).wf(),
            final(self)@ == (if dir_only {
                SetView { dir_only: old(self)@.dir_only.push(pattern@), ..old(self)@ }
            } else {
                SetView { all: old(self)@.all.push(pattern@), ..old(self)@ }
            }),
    {
        let ghost v = pattern@;
        if dir_only {
            self.dir_only.push(pattern);
            assert(shapes_of(self.dir_only@) =~= shapes_of(old(self).dir_only@).push(v));
        } else {
            self.all.push(pattern);
            assert(shapes_of(self.all@) =~= shapes_of(old(self).all@).push(v));
        }
    }

    pub fn duplicate(&self) -> (r: PatternSet)
        ensures
            r@ == self@,
    {
        let mut dir_only: Vec<GitPattern> = Vec::new();
        let mut i: usize = 0;
        while i < self.dir_only.len()
            invariant
                i <= self.dir_only@.len(),
                dir_only@.len() == i,
                forall|j: int| 0 <= j < i ==> dir_only@[j]@ == self.dir_only@[j]@,
            decreases self.dir_only.len() - i,
        {
            dir_only.push(self.dir_only[i].duplicate());
            i += 1;
        }
        let mut all: Vec<GitPattern> = Vec::new();
        let mut i: usize = 0;
        while i < self.all.len()
            invariant
                i <= self.all@.len(),
                all@.len() == i,
                forall|j: int| 0 <= j < i ==> all@[j]@ == self.all@[j]@,
            decreases self.all.len() - i,
        {
            all.push(self.all[i].duplicate());
            i += 1;
        }
        let r = PatternSet { root: copy_bytes(&self.root), dir_only, all };
        assert(r@.dir_only =~= self@.dir_only);
        assert(r@.all =~= self@.all);
        r
    }

    pub fn matches(&self, path: &str, is_dir: bool) -> (r: bool)
        requires
            self.wf(),
        ensures
            r == set_matches(self@, path@, is_dir),
    {
        let p = path.as_bytes();
        let rl = self.root.len();
        let truncated: &str = if starts_with_bytes(p, self.root.as_slice()) && path.is_char_boundary(
            rl,
        ) {
            path.split_at(rl).1
        } else {
            path
        };
        assert(truncated.spec_bytes() =~= truncate(self@.root, encode_utf8(path@)));
        if is_dir && any_pattern_matches(&self.dir_only, truncated) {
            return true;
        }
        any_pattern_matches(&self.all, truncated)
    }
}


/// The anchored text of a gitignore line, whether it was negated, and whether
/// it applies to directories only; `None` for a blank line or a comment.
pub open spec fn line_rule(line: Seq<char>) -> Option<(Seq<char>, bool, bool)> {
    match clean_line(line) {
        Some((p, negated)) => Some((anchor(p).0, negated, anchor(p).1)),
        None => None,
    }
}

/// The shape a line compiles to, with its two flags; `None` for a blank
/// line, a comment, or a glob that does not compile.
pub open spec fn line_pattern(line: Seq<char>) -> Option<(Shape, bool, bool)> {
    match line_rule(line) {
        Some((q, negated, dir_only)) => if classify(q) matches Shape::Glob(g) && !glob_compiles(g) {
            None
        } else {
            Some((classify(q), negated, dir_only))
        },
        None => None,
    }
}

/// The shapes of the lines, in order, that are negated or not as `negated`
/// says and directory-only or not as `dir_only` says.
pub open spec fn select(lines: Seq<Seq<char>>, negated: bool, dir_only: bool) -> Seq<Shape>
    decreases lines.len(),
{
    if lines.len() == 0 {
        Seq::empty()
    } else {
        let rest = select(lines.drop_last(), negated, dir_only);
        match line_pattern(lines.last()) {
            Some((shape, n, d)) => if n == negated && d == dir_only {
                rest.push(shape)
            } else {
                rest
            },
            None => rest,
        }
    }
}

/// The model of layered patterns: two ordered lists of sets.
pub struct PatternsView {
    pub whitelist: Seq<SetView>,
    pub blacklist: Seq<SetView>,
}

pub open spec fn layers_match(layers: Seq<SetView>, path: Seq<char>, is_dir: bool) -> bool {
    exists|i: int| 0 <= i < layers.len() && set_matches(layers[i], path, is_dir)
}

/// A path is excluded when no whitelist layer matches it and some blacklist
/// layer does.
pub open spec fn excluded(v: PatternsView, path: Seq<char>, is_dir: bool) -> bool {
    !layers_match(v.whitelist, path, is_dir) && layers_match(v.blacklist, path, is_dir)
}

pub open spec fn sets_wf(sets: Seq<SetView>) -> bool {
    forall|i: int|
        0 <= i < sets.len() ==> globs_compile(#[trigger] sets[i].dir_only) && globs_compile(
            sets[i].all,
        )
}

/// Whitelist and blacklist layers of ignore patterns.
pub struct Patterns {
    whitelist: Vec<PatternSet>,
    blacklist: Vec<PatternSet>,
}

pub open spec fn views_of(sets: Seq<PatternSet>) -> Seq<SetView> {
    sets.map_values(|s: PatternSet| s@)
}

impl View for Patterns {
    type V = PatternsView;

    closed spec fn view(&self) -> PatternsView {
        PatternsView { whitelist: views_of(self.whitelist@), blacklist: views_of(self.blacklist@) }
    }
}

fn any_set_matches(sets: &Vec<PatternSet>, path: &str, is_dir: bool) -> (r: bool)
    requires
        sets_wf(views_of(sets@)),
    ensures
        r == layers_match(views_of(sets@), path@, is_dir),
{
    let mut i: usize = 0;
    while i < sets.len()
        invariant
            i <= sets@.len(),
            sets_wf(views_of(sets@)),
            forall|j: int| 0 <= j < i ==> !set_matches(views_of(sets@)[j], path@, is_dir),
        decreases sets.len() - i,
    {
        assert(views_of(sets@)[i as int] == sets@[i as int]@);
        assert(globs_compile(views_of(sets@)[i as int].dir_only));
        if sets[i].matches(path, is_dir) {
            return true;
        }
        i += 1;
    }
    false
}

fn append_sets(to: &mut Vec<PatternSet>, from: &Vec<PatternSet>)
    ensures
        views_of(final(to)@) == views_of(old(to)@) + views_of(from@),
{
    let mut i: usize = 0;
    while i < from.len()
        invariant
            i <= from@.len(),
            views_of(to@) =~= views_of(old(to)@) + views_of(from@.subrange(0, i as int)),
        decreases from.len() - i,
    {
        let ghost before = to@;
        to.push(from[i].duplicate());
        assert(views_of(to@) =~= views_of(before).push(from@[i as int]@));
        assert(views_of(from@.subrange(0, i + 1)) =~= views_of(from@.subrange(0, i as int)).push(
            from@[i as int]@,
        ));
        i += 1;
    }
    assert(from@.subrange(0, from@.len() as int) =~= from@);
}

impl Patterns {
    pub open spec fn wf(&self) -> bool {
        sets_wf(self@.whitelist) && sets_wf(self@.blacklist)
    }

    /// No layers at all: nothing is excluded.
    pub fn empty() -> (r: Patterns)
        ensures
            r@.whitelist.len() == 0,
            r@.blacklist.len() == 0,
            r.wf(),
    {
        let r = Patterns { whitelist: Vec::new(), blacklist: Vec::new() };
        assert(r@.whitelist =~= Seq::empty());
        assert(r@.blacklist =~= Seq::empty());
        r
    }

    /// Reads one gitignore line: the compiled pattern (`None` when its glob
    /// does not compile), whether it is negated, and whether it applies to
    /// directories only. `None` for a blank line or a comment.
    fn parse(line: &str) -> (r: Option<(Option<GitPattern>, bool, bool)>)
        ensures
            match r {
                None => line_rule(line@) is None,
                Some((p, negated, dir_only)) => line_rule(line@) matches Some((q, n, d)) && n
                    == negated && d == dir_only && match p {
                    Some(p) => p@ == classify(q) && p.wf(),
                    None => classify(q) matches Shape::Glob(g) && !glob_compiles(g),
                },
            },
    {
        let cs = chars_of(line);
        match clean_line_exec(&cs) {
            None => None,
            Some((p, negated)) => {
                let (q, dir_only) = anchor_exec(&p);
                let text = string_of(&q);
                Some((GitPattern::new(text.as_str()), negated, dir_only))
            },
        }
    }

    /// One whitelist layer and one blacklist layer, both rooted at `root`,
    /// from the lines of a gitignore file. Blank lines and comments are
    /// skipped, and so are globs that do not compile.
    pub fn new(root: &str, strings: &[String]) -> (r: Patterns)
        ensures
            r.wf(),
            r@.whitelist == seq![
                SetView {
                    root: encode_utf8(trim_end_char(root@, '/')),
                    dir_only: select(strings@.map_values(|s: String| s@), true, true),
                    all: select(strings@.map_values(|s: String| s@), true, false),
                },
            ],
            r@.blacklist == seq![
                SetView {
                    root: encode_utf8(trim_end_char(root@, '/')),
                    dir_only: select(strings@.map_values(|s: String| s@), false, true),
                    all: select(strings@.map_values(|s: String| s@), false, false),
                },
            ],
    {
        let ghost lines = strings@.map_values(|s: String| s@);
        let mut white = PatternSet::new(root);
        let mut black = PatternSet::new(root);
        let mut i: usize = 0;
        while i < strings.len()
            invariant
                i <= strings@.len(),
                lines == strings@.map_values(|s: String| s@),
                white.wf(),
                black.wf(),
                white@ == (SetView {
                    root: encode_utf8(trim_end_char(root@, '/')),
                    dir_only: select(lines.subrange(0, i as int), true, true),
                    all: select(lines.subrange(0, i as int), true, false),
                }),
                black@ == (SetView {
                    root: encode_utf8(trim_end_char(root@, '/')),
                    dir_only: select(lines.subrange(0, i as int), false, true),
                    all: select(lines.subrange(0, i as int), false, false),
                }),
            decreases strings.len() - i,
        {
            let ghost pre = lines.subrange(0, i as int);
            let ghost cur = lines.subrange(0, i + 1);
            assert(cur.drop_last() =~= pre);
            assert(cur.last() == strings@[i as int]@);
            match Self::parse(strings[i].as_str()) {
                Some((Some(pattern), negated, dir_only)) => {
                    if negated {
                        white.push(pattern, dir_only);
                    } else {
                        black.push(pattern, dir_only);
                    }
                },
                _ => {},
            }
            i += 1;
            assert(white@ =~= (SetView {
                root: encode_utf8(trim_end_char(root@, '/')),
                dir_only: select(lines.subrange(0, i as int), true, true),
                all: select(lines.subrange(0, i as int), true, false),
            }));
            assert(black@ =~= (SetView {
                root: encode_utf8(trim_end_char(root@, '/')),
                dir_only: select(lines.subrange(0, i as int), false, true),
                all: select(lines.subrange(0, i as int), false, false),
            }));
        }
        assert(lines.subrange(0, i as int) =~= lines);
        let mut whitelist: Vec<PatternSet> = Vec::new();
        whitelist.push(white);
        let mut blacklist: Vec<PatternSet> = Vec::new();
        blacklist.push(black);
        let r = Patterns { whitelist, blacklist };
        assert(r@.whitelist =~= seq![white@]);
        assert(r@.blacklist =~= seq![black@]);
        r
    }

    /// Appends the layers of `other` after those of `self`.
    pub fn extend(&mut self, other: &Patterns)
        requires
            old(self).wf(),
            other.wf(),
        ensures
            final(self).wf(),
            final(self)@.whitelist == old(self)@.whitelist + other@.whitelist,
            final(self)@.blacklist == old(self)@.blacklist + other@.blacklist,
    {
        append_sets(&mut self.whitelist, &other.whitelist);
        append_sets(&mut self.blacklist, &other.blacklist);
    }

    pub fn is_excluded(&self, path: &str, is_dir: bool) -> (r: bool)
        requires
            self.wf(),
        ensures
            r == excluded(self@, path@, is_dir),
    {
        if any_set_matches(&self.whitelist, path, is_dir) {
            return false;
        }
        any_set_matches(&self.blacklist, path, is_dir)
    }
}


/// The model of `Patterns::new(root, lines)`.
pub open spec fn patterns_of(root: Seq<char>, lines: Seq<Seq<char>>) -> PatternsView {
    let r = encode_utf8(trim_end_char(root, '/'));
    PatternsView {
        whitelist: seq![
            SetView { root: r, dir_only: select(lines, true, true), all: select(lines, true, false) },
        ],
        blacklist: seq![
            SetView {
                root: r,
                dir_only: select(lines, false, true),
                all: select(lines, false, false),
            },
        ],
    }
}

proof fn lemma_unescape_keeps_last_slash(s: Seq<char>)
    requires
        s.len() > 0,
        s.last() == '/',
    ensures
        unescape_spaces(s).len() > 0,
        unescape_spaces(s).last() == '/',
    decreases s.len(),
{
    if s.len() >= 2 && s[0] == '\\' && s[1] == ' ' {
        let t = s.subrange(2, s.len() as int);
        assert(s.len() > 2);
        assert(t.last() == s.last());
        lemma_unescape_keeps_last_slash(t);
    } else if s.len() == 1 {
        assert(unescape_spaces(s.subrange(1, 1)) =~= Seq::<char>::empty());
        assert(unescape_spaces(s) =~= seq![s[0]]);
    } else {
        let t = s.subrange(1, s.len() as int);
        assert(t.last() == s.last());
        lemma_unescape_keeps_last_slash(t);
    }
}

/// A line that ends with `/` gives, when it is a pattern at all, a pattern
/// for directories only.
/// The last character of the line other than blanks is `/`.
pub open spec fn slash_before_blanks(line: Seq<char>) -> bool {
    exists|k: int|
        0 <= k < line.len() && line[k] == '/' && forall|j: int| k < j < line.len() ==> is_white(
            #[trigger] line[j],
        )
}

proof fn lemma_trim_end_is(s: Seq<char>, m: int)
    requires
        0 <= m <= s.len(),
        m == 0 || !is_white(s[m - 1]),
        forall|j: int| m <= j < s.len() ==> is_white(#[trigger] s[j]),
    ensures
        trim_end(s) == s.subrange(0, m),
    decreases s.len() - m,
{
    if s.len() == m {
        assert(s.subrange(0, m) =~= s);
    } else {
        let t = s.drop_last();
        assert(is_white(s[s.len() - 1]));
        assert forall|j: int| m <= j < t.len() implies is_white(#[trigger] t[j]) by {
            assert(t[j] == s[j]);
        }
        lemma_trim_end_is(t, m);
        assert(t.subrange(0, m) =~= s.subrange(0, m));
    }
}

proof fn lemma_trim_start_from(s: Seq<char>, k: int) -> (t: int)
    requires
        0 <= k < s.len(),
        !is_white(s[k]),
    ensures
        0 <= t <= k,
        trim_start(s) == s.subrange(t, s.len() as int),
    decreases s.len(),
{
    if is_white(s[0]) {
        let rest = s.subrange(1, s.len() as int);
        assert(rest[k - 1] == s[k]);
        let t0 = lemma_trim_start_from(rest, k - 1);
        assert(rest.subrange(t0, rest.len() as int) =~= s.subrange(t0 + 1, s.len() as int));
        t0 + 1
    } else {
        assert(s.subrange(0, s.len() as int) =~= s);
        0
    }
}

/// A line whose last character other than blanks is `/` gives, when it is a
/// pattern at all, a pattern for directories only.
proof fn lemma_trailing_slash_rule(line: Seq<char>)
    requires
        slash_before_blanks(line),
    ensures
        line_rule(line) matches Some((_, _, dir_only)) ==> dir_only,
{
    if let Some((p, negated)) = clean_line(line) {
        let k = choose|k: int|
            0 <= k < line.len() && line[k] == '/' && forall|j: int| k < j < line.len() ==> is_white(
                #[trigger] line[j],
            );
        let t = lemma_trim_start_from(line, k);
        let a = trim_start(line);
        let kk = k - t;
        assert(a[kk] == '/');
        assert forall|j: int| kk + 1 <= j < a.len() implies is_white(#[trigger] a[j]) by {
            assert(a[j] == line[j + t]);
        }
        lemma_trim_end_is(a, kk + 1);
        let b = trim_end(a);
        assert(b.len() > 0 && b.last() == '/');
        assert(!ends_with(a, seq!['\\', ' '])) by {
            if ends_with(a, seq!['\\', ' ']) {
                assert(a.subrange(a.len() - 2, a.len() as int)[0] == a[a.len() - 2]);
                assert(a.subrange(a.len() - 2, a.len() as int)[1] == a[a.len() - 1]);
                if a.len() - 2 > kk {
                    assert(is_white(a[a.len() - 2]));
                } else if a.len() - 1 == kk {
                    assert(a[a.len() - 1] == '/');
                }
            }
        }
        if b == seq!['\\'] {
            assert(b.last() == '\\');
        }
        lemma_unescape_keeps_last_slash(b);
        let c = unescape_spaces(b);
        let d = if negated { c.subrange(1, c.len() as int) } else { c };
        assert(d.len() > 0 && d.last() == '/');
        let e = if starts_with(d, seq!['\\', '#']) || starts_with(d, seq!['\\', '!']) {
            d.subrange(1, d.len() as int)
        } else {
            d
        };
        assert(e.len() > 0 && e.last() == '/') by {
            if starts_with(d, seq!['\\', '#']) || starts_with(d, seq!['\\', '!']) {
                assert(d.subrange(0, 2)[1] == d[1]);
                assert(d.len() > 2);
            }
        }
        assert(p.len() > 0 && p.last() == '/') by {
            if starts_with(e, seq!['.', '/']) {
                assert(e.subrange(0, 2)[0] == e[0]);
            }
        }
        assert(p.subrange(p.len() - 1, p.len() as int) =~= seq!['/']);
    }
}

/// A pattern read from a line whose last character other than blanks is `/`
/// is directory-only: a set holding it alone never matches a path that is
/// not a directory.
pub proof fn law_trailing_slash_set_matches_directories_only(
    root: Seq<u8>,
    line: Seq<char>,
    path: Seq<char>,
)
    requires
        slash_before_blanks(line),
        line_pattern(line) is Some,
    ensures
        ({
            let (shape, _, dir_only) = line_pattern(line)->0;
            &&& dir_only
            &&& !set_matches(
                SetView { root, dir_only: seq![shape], all: Seq::empty() },
                path,
                false,
            )
        }),
{
    lemma_trailing_slash_rule(line);
}

proof fn lemma_select_dir_only_empty(lines: Seq<Seq<char>>, negated: bool)
    requires
        forall|i: int| 0 <= i < lines.len() ==> slash_before_blanks(#[trigger] lines[i]),
    ensures
        select(lines, negated, false).len() == 0,
    decreases lines.len(),
{
    if lines.len() > 0 {
        let rest = lines.drop_last();
        assert forall|i: int| 0 <= i < rest.len() implies slash_before_blanks(#[trigger] rest[i]) by {
            assert(rest[i] == lines[i]);
        }
        lemma_select_dir_only_empty(rest, negated);
        lemma_trailing_slash_rule(lines.last());
    }
}

/// Patterns read from lines that each end with `/` (blanks after it aside)
/// apply to directories only: they exclude nothing that is not a directory.
pub proof fn law_trailing_slash_matches_directories_only(
    root: Seq<char>,
    lines: Seq<Seq<char>>,
    path: Seq<char>,
)
    requires
        forall|i: int| 0 <= i < lines.len() ==> slash_before_blanks(#[trigger] lines[i]),
    ensures
        !excluded(patterns_of(root, lines), path, false),
{
    lemma_select_dir_only_empty(lines, false);
    let v = patterns_of(root, lines);
    assert(!layers_match(v.blacklist, path, false)) by {
        if layers_match(v.blacklist, path, false) {
            let i = choose|i: int| 0 <= i < v.blacklist.len() && set_matches(v.blacklist[i], path, false);
            assert(i == 0);
        }
    }
}

/// Exclusion is a function of the layers, the path and the directory flag:
/// two tests of the same path give the same answer.
pub proof fn law_exclusion_is_stable(v: PatternsView, path: Seq<char>, is_dir: bool, first: bool, second: bool)
    requires
        first == excluded(v, path, is_dir),
        second == excluded(v, path, is_dir),
    ensures
        first == second,
{
}

/// A pattern with no `/` before its last character, that starts neither with
/// `/` nor with `**/`, is anchored as `**/` followed by it: it matches at any
/// depth. (`*` and `*/` are left out: with `**/` in front they end with `/*`.)
pub proof fn law_unanchored_pattern_matches_at_any_depth(p: Seq<char>)
    requires
        p.len() > 0,
        !inner_slash(p),
        !starts_with(p, seq!['/']),
        !starts_with(p, seq!['*', '*', '/']),
        p != seq!['*'],
        p != seq!['*', '/'],
    ensures
        anchor(p) == anchor(seq!['*', '*', '/'] + p),
{
    let star3 = seq!['*', '*', '/'];
    let pp = star3 + p;
    // `p` is a name `n`, possibly followed by one `/`.
    let n = if p.last() == '/' { p.drop_last() } else { p };
    assert(forall|i: int| 0 <= i < n.len() ==> n[i] == p[i]);
    assert(forall|i: int| 0 <= i < n.len() ==> #[trigger] n[i] != '/') by {
        assert forall|i: int| 0 <= i < n.len() implies #[trigger] n[i] != '/' by {
            if n[i] == '/' {
                assert(0 <= i < p.len() - 1 && p[i] == '/');
            }
        }
    }
    assert(n.len() > 0) by {
        if n.len() == 0 {
            assert(p =~= seq!['/']);
            assert(p.subrange(0, 1) =~= seq!['/']);
        }
    }
    assert(pp.last() == p.last());
    // Neither is anchored at the root.
    assert(!is_root_anchored(p));
    assert(starts_with(pp, star3)) by {
        assert(pp.subrange(0, 3) =~= star3);
    }
    assert(!starts_with(pp, seq!['/'])) by {
        assert(pp.subrange(0, 1)[0] == '*');
    }
    assert(!is_root_anchored(pp));
    // The same directory flag.
    assert(ends_with(p, seq!['/']) == ends_with(pp, seq!['/'])) by {
        assert(p.subrange(p.len() - 1, p.len() as int) =~= seq![p.last()]);
        assert(pp.subrange(pp.len() - 1, pp.len() as int) =~= seq![pp.last()]);
    }
    assert(ends_with(p, seq!['/', '*']) == ends_with(pp, seq!['/', '*'])) by {
        if p.len() == 1 {
            assert(p =~= seq![p[0]]);
            assert(p[0] != '*');
        }
        assert(pp[pp.len() - 2] == if p.len() >= 2 { p[p.len() - 2] } else { '/' });
        assert(pp.subrange(pp.len() - 2, pp.len() as int) =~= seq![pp[pp.len() - 2], pp.last()]);
        if p.len() >= 2 {
            assert(p.subrange(p.len() - 2, p.len() as int) =~= seq![p[p.len() - 2], p.last()]);
        }
    }
    // Trailing slashes and `/*` pairs come off the same way.
    assert(trim_end_char(n, '/') == n);
    assert(trim_end_char(p, '/') == n) by {
        if p.last() == '/' {
            assert(p.drop_last() == n);
        }
    }
    assert(trim_end_char(pp, '/') == star3 + n) by {
        assert(n[n.len() - 1] != '/');
        assert((star3 + n).last() == n.last());
        assert(trim_end_char(star3 + n, '/') == star3 + n);
        if p.last() == '/' {
            assert(pp.drop_last() =~= star3 + n);
            assert((star3 + n).last() == n.last());
        } else {
            assert(pp == star3 + n);
        }
    }
    assert(!ends_with(n, seq!['/', '*'])) by {
        if ends_with(n, seq!['/', '*']) {
            assert(n.subrange(n.len() - 2, n.len() as int)[0] == n[n.len() - 2]);
        }
    }
    assert(trim_end_slash_star(n) == n);
    let m = star3 + n;
    assert(!ends_with(m, seq!['/', '*'])) by {
        if ends_with(m, seq!['/', '*']) {
            assert(m.subrange(m.len() - 2, m.len() as int)[0] == m[m.len() - 2]);
            assert(m.subrange(m.len() - 2, m.len() as int)[1] == m[m.len() - 1]);
            if n.len() >= 2 {
                assert(m[m.len() - 2] == n[n.len() - 2]);
            } else {
                assert(n =~= seq!['*']);
                if p.last() == '/' {
                    assert(p =~= seq!['*', '/']);
                } else {
                    assert(p =~= seq!['*']);
                }
            }
        }
    }
    assert(trim_end_slash_star(m) == m);
    assert(!starts_with(n, star3)) by {
        if starts_with(n, star3) {
            assert(n.subrange(0, 3)[2] == n[2]);
        }
    }
    assert(starts_with(m, star3)) by {
        assert(m.subrange(0, 3) =~= star3);
    }
}

} // verus!
