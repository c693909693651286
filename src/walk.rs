//! Decisions of the directory walk: the order in which the outputs of the
//! files of one directory are written, with separators between them; what to
//! do with a symbolic link given the directories above it; the log level.
use vstd::prelude::*;
use vstd::string::StringSliceAdditionalSpecFns;
use vstd::utf8::encode_utf8;
use crate::text::{bytes_at, ends_with, starts_with};
use crate::writer::BufferedWriter;
use crate::patterns::{any_matches, excluded, Patterns};
use crate::filters::Filters;

verus! {

/// One piece of merged output: a file separator, or a line of some file.
pub enum Piece {
    Separator,
    Line(Seq<char>),
}

pub open spec fn as_pieces(lines: Seq<Seq<char>>) -> Seq<Piece> {
    lines.map_values(|l: Seq<char>| Piece::Line(l))
}

/// The outputs of the first `k` files merged in order, and whether a file
/// has been written. With separators on, a separator goes before a
/// non-empty output whenever some output was written before it.
pub open spec fn merge_upto(outputs: Seq<Seq<Seq<char>>>, separators: bool, printed: bool, k: int) -> (Seq<Piece>, bool)
    decreases k,
{
    if k <= 0 {
        (Seq::empty(), printed)
    } else {
        let (ps, pr) = merge_upto(outputs, separators, printed, k - 1);
        let o = outputs[k - 1];
        let sep = separators && o.len() > 0 && pr;
        let pr2 = if separators && o.len() > 0 {
            true
        } else {
            pr
        };
        (ps + (if sep {
            seq![Piece::Separator]
        } else {
            Seq::empty()
        }) + as_pieces(o), pr2)
    }
}

/// The text of merged pieces, with `sep` for each separator.
pub open spec fn piece_texts(ps: Seq<Piece>, sep: Seq<char>) -> Seq<Seq<char>> {
    ps.map_values(
        |p: Piece|
            match p {
                Piece::Separator => sep,
                Piece::Line(l) => l,
            },
    )
}

pub open spec fn outputs_of(ws: Seq<BufferedWriter>) -> Seq<Seq<Seq<char>>> {
    ws.map_values(|w: BufferedWriter| w@)
}

/// Writes the outputs of the files of one directory, in order, to `out`;
/// `printed` says whether some file was written before, in this run.
pub fn merge_outputs(
    outputs: &Vec<BufferedWriter>,
    separators: bool,
    printed: &mut bool,
    sep: &str,
    out: &mut BufferedWriter,
)
    ensures
        ({
            let (ps, pr) = merge_upto(outputs_of(outputs@), separators, *old(printed), outputs@.len() as int);
            &&& final(out)@ == old(out)@ + piece_texts(ps, sep@)
            &&& *final(printed) == pr
        }),
{
    let ghost start = *printed;
    let ghost os = outputs_of(outputs@);
    let mut i: usize = 0;
    while i < outputs.len()
        invariant
            os == outputs_of(outputs@),
            i <= outputs@.len(),
            ({
                let (ps, pr) = merge_upto(os, separators, start, i as int);
                &&& out@ == old(out)@ + piece_texts(ps, sep@)
                &&& *printed == pr
            }),
        decreases outputs.len() - i,
    {
        let ghost before = out@;
        let w = &outputs[i];
        assert(os[i as int] == w@);
        let some = w.has_some();
        if separators && some && *printed {
            out.push_line(sep);
        }
        if separators && some {
            *printed = true;
        }
        let ghost mid = out@;
        w.flush(out);
        proof {
            let (ps, pr) = merge_upto(os, separators, start, i as int);
            let s = separators && w@.len() > 0 && pr;
            let added = (if s {
                seq![Piece::Separator]
            } else {
                Seq::empty()
            }) + as_pieces(w@);
            assert(piece_texts(added, sep@) =~= (if s {
                seq![sep@]
            } else {
                Seq::empty()
            }) + w@);
            assert(piece_texts(ps + added, sep@) =~= piece_texts(ps, sep@) + piece_texts(added, sep@));
            assert(out@ =~= old(out)@ + piece_texts(ps + added, sep@));
        }
        i += 1;
    }
}

proof fn lemma_merge_shape(outputs: Seq<Seq<Seq<char>>>, separators: bool, printed: bool, k: int)
    requires
        0 <= k <= outputs.len(),
    ensures
        ({
            let (ps, pr) = merge_upto(outputs, separators, printed, k);
            &&& separators ==> (pr <==> (printed || ps.len() > 0))
            &&& ps.len() > 0 ==> ps.last() is Line
            &&& forall|i: int|
                0 <= i < ps.len() && #[trigger] ps[i] is Separator ==> (if i == 0 {
                    printed
                } else {
                    ps[i - 1] is Line
                }) && i + 1 < ps.len() && ps[i + 1] is Line
        }),
    decreases k,
{
    if k > 0 {
        lemma_merge_shape(outputs, separators, printed, k - 1);
        let (ps, pr) = merge_upto(outputs, separators, printed, k - 1);
        let o = outputs[k - 1];
        let s = separators && o.len() > 0 && pr;
        let head = ps + (if s {
            seq![Piece::Separator]
        } else {
            Seq::empty()
        });
        let all = head + as_pieces(o);
        assert forall|i: int| 0 <= i < all.len() && #[trigger] all[i] is Separator implies (if i
            == 0 {
            printed
        } else {
            all[i - 1] is Line
        }) && i + 1 < all.len() && all[i + 1] is Line by {
            if i < ps.len() {
                assert(all[i] == ps[i]);
                if i > 0 {
                    assert(all[i - 1] == ps[i - 1]);
                }
                assert(all[i + 1] == if i + 1 < ps.len() { ps[i + 1] } else { head[i + 1] });
                if i + 1 == ps.len() {
                    assert(ps.last() is Line);
                }
            } else if i == ps.len() && s {
                if i > 0 {
                    assert(all[i - 1] == ps.last());
                }
                assert(all[i + 1] == as_pieces(o)[0]);
            } else {
                assert(all[i] == as_pieces(o)[i - head.len()]);
            }
        }
        if all.len() > 0 {
            if o.len() > 0 {
                assert(all.last() == as_pieces(o).last());
            } else {
                assert(as_pieces(o).len() == 0);
                assert(all =~= ps);
            }
        }
    }
}

/// With separators: each separator is followed by a line of a later file,
/// and preceded by a line of an earlier file, or, when it comes first, by
/// output written before (`printed`); so a run that starts with `printed`
/// false never opens with a separator.
pub proof fn law_separators_between_outputs(outputs: Seq<Seq<Seq<char>>>, separators: bool, printed: bool)
    ensures
        ({
            let (ps, pr) = merge_upto(outputs, separators, printed, outputs.len() as int);
            &&& forall|i: int|
                0 <= i < ps.len() && #[trigger] ps[i] is Separator ==> (if i == 0 {
                    printed
                } else {
                    ps[i - 1] is Line
                }) && i + 1 < ps.len() && ps[i + 1] is Line
            &&& separators ==> (pr <==> (printed || ps.len() > 0))
        }),
{
    lemma_merge_shape(outputs, separators, printed, outputs.len() as int);
}

/// `p` is `base` or a path below it, component by component.
pub open spec fn is_under(p: Seq<u8>, base: Seq<u8>) -> bool {
    starts_with(p, base) && (p.len() == base.len() || ends_with(base, seq![0x2fu8])
        || p[base.len() as int] == 0x2f)
}

/// What to do with a symbolic link whose target resolves to a path.
#[derive(Clone, Copy, PartialEq, Eq, Structural)]
pub enum SymlinkVerdict {
    /// The target is the directory at this depth above the link: a loop.
    Loop(usize),
    /// The target is a directory above one of the directories above the
    /// link: walking it would walk them again.
    Escape,
    /// The target lies elsewhere: walk it.
    Follow,
}

fn same_bytes(a: &[u8], b: &[u8]) -> (r: bool)
    ensures
        r == (a@ == b@),
{
    let r = a.len() == b.len() && bytes_at(a, 0, b);
    assert(r ==> a@.subrange(0, b@.len() as int) =~= a@);
    proof {
        if a@ == b@ {
            assert(a@.subrange(0, b@.len() as int) =~= a@);
        }
    }
    r
}

fn is_under_exec(p: &[u8], base: &[u8]) -> (r: bool)
    ensures
        r == is_under(p@, base@),
{
    if !bytes_at(p, 0, base) {
        return false;
    }
    proof {
        if base@.len() > 0 {
            let t = base@.subrange(base@.len() - 1, base@.len() as int);
            assert(t[0] == base@[base@.len() - 1]);
            if base@[base@.len() - 1] == 0x2f {
                assert(t =~= seq![0x2fu8]);
            }
        }
    }
    p.len() == base.len() || (base.len() > 0 && base[base.len() - 1] == 0x2fu8) || p[base.len()]
        == 0x2fu8
}

pub open spec fn path_bytes(ps: Seq<String>) -> Seq<Seq<u8>> {
    ps.map_values(|p: String| encode_utf8(p@))
}

/// Decides on a symbolic link, given the path its target resolves to and the
/// directories above it, outermost first.
pub fn symlink_verdict(resolved: &str, parents: &Vec<String>) -> (r: SymlinkVerdict)
    ensures
        ({
            let p = resolved.spec_bytes();
            let ps = path_bytes(parents@);
            match r {
                SymlinkVerdict::Loop(level) => level < ps.len() && ps[level as int] == p && forall|j: int|
                    0 <= j < level ==> ps[j] != p,
                SymlinkVerdict::Escape => (forall|j: int| 0 <= j < ps.len() ==> ps[j] != p) && exists|j: int|
                    0 <= j < ps.len() && is_under(#[trigger] ps[j], p),
                SymlinkVerdict::Follow => forall|j: int|
                    0 <= j < ps.len() ==> ps[j] != p && !is_under(#[trigger] ps[j], p),
            }
        }),
{
    let p = resolved.as_bytes();
    let ghost ps = path_bytes(parents@);
    let mut i: usize = 0;
    while i < parents.len()
        invariant
            ps == path_bytes(parents@),
            p@ == resolved.spec_bytes(),
            i <= parents@.len(),
            forall|j: int| 0 <= j < i ==> ps[j] != p@,
        decreases parents.len() - i,
    {
        assert(ps[i as int] == encode_utf8(parents@[i as int]@));
        if same_bytes(parents[i].as_str().as_bytes(), p) {
            return SymlinkVerdict::Loop(i);
        }
        i += 1;
    }
    let mut i: usize = 0;
    while i < parents.len()
        invariant
            ps == path_bytes(parents@),
            p@ == resolved.spec_bytes(),
            i <= parents@.len(),
            forall|j: int| 0 <= j < ps.len() ==> ps[j] != p@,
            forall|j: int| 0 <= j < i ==> !is_under(#[trigger] ps[j], p@),
        decreases parents.len() - i,
    {
        assert(ps[i as int] == encode_utf8(parents@[i as int]@));
        if is_under_exec(parents[i].as_str().as_bytes(), p) {
            assert(is_under(ps[i as int], p@));
            return SymlinkVerdict::Escape;
        }
        i += 1;
    }
    SymlinkVerdict::Follow
}

/// How much is logged.
#[derive(Clone, Copy, PartialEq, Eq, Structural)]
pub enum LogLevel {
    Off,
    Error,
    Warn,
    Info,
    Debug,
    Trace,
}

/// The log level for a verbosity count: negative turns logging off, 0 logs
/// errors, then warnings, information, debugging, and from 4 on everything.
pub fn log_level(verbosity: i8) -> (r: LogLevel)
    ensures
        r == if verbosity < 0 {
            LogLevel::Off
        } else if verbosity == 0 {
            LogLevel::Error
        } else if verbosity == 1 {
            LogLevel::Warn
        } else if verbosity == 2 {
            LogLevel::Info
        } else if verbosity == 3 {
            LogLevel::Debug
        } else {
            LogLevel::Trace
        },
{
    if verbosity < 0 {
        LogLevel::Off
    } else if verbosity == 0 {
        LogLevel::Error
    } else if verbosity == 1 {
        LogLevel::Warn
    } else if verbosity == 2 {
        LogLevel::Info
    } else if verbosity == 3 {
        LogLevel::Debug
    } else {
        LogLevel::Trace
    }
}


/// Byte-wise lexicographic order.
pub open spec fn lex_le(a: Seq<u8>, b: Seq<u8>) -> bool
    decreases a.len(),
{
    if a.len() == 0 {
        true
    } else if b.len() == 0 {
        false
    } else if a[0] != b[0] {
        a[0] < b[0]
    } else {
        lex_le(a.drop_first(), b.drop_first())
    }
}

proof fn lemma_lex_total(a: Seq<u8>, b: Seq<u8>)
    ensures
        lex_le(a, b) || lex_le(b, a),
    decreases a.len(),
{
    if a.len() > 0 && b.len() > 0 && a[0] == b[0] {
        lemma_lex_total(a.drop_first(), b.drop_first());
    }
}

proof fn lemma_lex_trans(a: Seq<u8>, b: Seq<u8>, c: Seq<u8>)
    requires
        lex_le(a, b),
        lex_le(b, c),
    ensures
        lex_le(a, c),
    decreases a.len(),
{
    if a.len() > 0 && b.len() > 0 && c.len() > 0 && a[0] == b[0] && b[0] == c[0] {
        lemma_lex_trans(a.drop_first(), b.drop_first(), c.drop_first());
    }
}

fn lex_le_exec(a: &[u8], b: &[u8]) -> (r: bool)
    ensures
        r == lex_le(a@, b@),
{
    let mut i: usize = 0;
    assert(a@.subrange(0, a@.len() as int) =~= a@);
    assert(b@.subrange(0, b@.len() as int) =~= b@);
    while i < a.len() && i < b.len() && a[i] == b[i]
        invariant
            i <= a@.len(),
            i <= b@.len(),
            lex_le(a@, b@) == lex_le(
                a@.subrange(i as int, a@.len() as int),
                b@.subrange(i as int, b@.len() as int),
            ),
        decreases a.len() - i,
    {
        assert(a@.subrange(i as int, a@.len() as int).drop_first() =~= a@.subrange(
            i + 1,
            a@.len() as int,
        ));
        assert(b@.subrange(i as int, b@.len() as int).drop_first() =~= b@.subrange(
            i + 1,
            b@.len() as int,
        ));
        i += 1;
    }
    if i == a.len() {
        true
    } else if i == b.len() {
        false
    } else {
        a[i] < b[i]
    }
}

/// A file to search: its path and its length in bytes.
pub struct FileTask {
    pub path: String,
    pub len: usize,
}

pub open spec fn task_keys(ts: Seq<FileTask>) -> Seq<(Seq<char>, usize)> {
    ts.map_values(|t: FileTask| (t.path@, t.len))
}

pub open spec fn task_paths(ts: Seq<FileTask>) -> Seq<Seq<u8>> {
    ts.map_values(|t: FileTask| encode_utf8(t.path@))
}

pub open spec fn sorted_paths(ps: Seq<Seq<u8>>) -> bool {
    forall|i: int, j: int| 0 <= i < j < ps.len() ==> lex_le(#[trigger] ps[i], #[trigger] ps[j])
}

proof fn lemma_insert_sorted(s: Seq<Seq<u8>>, k: int, x: Seq<u8>)
    requires
        sorted_paths(s),
        0 <= k <= s.len(),
        forall|i: int| 0 <= i < k ==> lex_le(#[trigger] s[i], x),
        k < s.len() ==> !lex_le(s[k], x),
    ensures
        sorted_paths(s.insert(k, x)),
{
    let t = s.insert(k, x);
    if k < s.len() {
        lemma_lex_total(s[k], x);
    }
    assert forall|i: int, j: int| 0 <= i < j < t.len() implies lex_le(#[trigger] t[i], #[trigger] t[j]) by {
        if j < k {
            assert(t[i] == s[i] && t[j] == s[j]);
        } else if j == k {
            assert(t[i] == s[i] && t[j] == x);
        } else if i == k {
            assert(t[j] == s[j - 1]);
            if j - 1 > k {
                assert(lex_le(s[k], s[j - 1]));
                lemma_lex_trans(x, s[k], s[j - 1]);
            }
        } else if i < k {
            assert(t[i] == s[i] && t[j] == s[j - 1]);
        } else {
            assert(t[i] == s[i - 1] && t[j] == s[j - 1]);
        }
    }
}

/// The tasks ordered by path, byte by byte; the same tasks, each as often.
pub fn sort_tasks(tasks: Vec<FileTask>) -> (r: Vec<FileTask>)
    ensures
        sorted_paths(task_paths(r@)),
        task_keys(r@).to_multiset() == task_keys(tasks@).to_multiset(),
{
    broadcast use vstd::seq_lib::group_to_multiset_ensures, vstd::seq_lib::to_multiset_insert, vstd::multiset::group_multiset_axioms;

    let ghost all = task_keys(tasks@).to_multiset();
    let mut input = tasks;
    let mut out: Vec<FileTask> = Vec::new();
    assert(task_keys(out@) =~= Seq::empty());
    assert(task_keys(out@).to_multiset() =~= vstd::multiset::Multiset::empty()) by {
        assert(task_keys(out@).to_multiset().len() == 0);
    }
    assert(input@ == tasks@);
    while input.len() > 0
        invariant
            sorted_paths(task_paths(out@)),
            task_keys(out@).to_multiset().add(task_keys(input@).to_multiset()) == all,
        decreases input.len(),
    {
        let ghost before_in = input@;
        let ghost out0 = out@;
        let t = input.pop().unwrap();
        assert(before_in =~= input@.push(t));
        assert(task_keys(before_in) =~= task_keys(input@).push((t.path@, t.len)));
        let p = t.path.as_str().as_bytes();
        let mut k: usize = 0;
        while k < out.len() && lex_le_exec(out[k].path.as_str().as_bytes(), p)
            invariant
                k <= out@.len(),
                p@ == encode_utf8(t.path@),
                forall|i: int| 0 <= i < k ==> lex_le(#[trigger] task_paths(out@)[i], p@),
            decreases out.len() - k,
        {
            k += 1;
        }
        let ghost before_out = out@;
        proof {
            lemma_insert_sorted(task_paths(before_out), k as int, p@);
        }
        out.insert(k, t);
        assert(task_paths(out@) =~= task_paths(before_out).insert(k as int, p@));
        assert(task_keys(out@) =~= task_keys(before_out).insert(k as int, (t.path@, t.len)));
        proof {
            let key = (t.path@, t.len);
            vstd::seq_lib::to_multiset_build(task_keys(input@), key);
            vstd::seq_lib::to_multiset_insert(task_keys(out0), k as int, key);
            assert(task_keys(before_in).to_multiset() =~= task_keys(input@).to_multiset().insert(key));
            assert(task_keys(out@).to_multiset() =~= task_keys(out0).to_multiset().insert(key));
            assert(task_keys(out0).to_multiset().add(task_keys(before_in).to_multiset()) == all);
        }
        assert(task_keys(out@).to_multiset().add(task_keys(input@).to_multiset()) =~= all);
    }
    assert(task_keys(input@) =~= Seq::empty());
    assert(task_keys(input@).to_multiset() =~= vstd::multiset::Multiset::empty()) by {
        assert(task_keys(input@).to_multiset().len() == 0);
    }
    assert(task_keys(out@).to_multiset().add(task_keys(input@).to_multiset()) =~= task_keys(out@).to_multiset());
    out
}


/// What a directory entry is.
#[derive(Clone, Copy, PartialEq, Eq, Structural)]
pub enum EntryKind {
    File,
    Dir,
    Symlink,
    Other,
}

/// A directory entry: its absolute path, its kind, and its length.
pub struct Entry {
    pub path: String,
    pub kind: EntryKind,
    pub len: usize,
}

pub open spec fn ignore_file_suffix() -> Seq<u8> {
    seq![0x2fu8, 0x2eu8, 0x67u8, 0x69u8, 0x74u8, 0x69u8, 0x67u8, 0x6eu8, 0x6fu8, 0x72u8, 0x65u8]
}

/// The entry is kept: it is not the ignore file itself (`/.gitignore`), and
/// neither the forced exclusions nor the ignore patterns exclude it.
pub open spec fn kept(force: Patterns, patterns: Patterns, e: Entry) -> bool {
    !ends_with(encode_utf8(e.path@), ignore_file_suffix()) && !excluded(
        force@,
        e.path@,
        e.kind == EntryKind::Dir,
    ) && !excluded(patterns@, e.path@, e.kind == EntryKind::Dir)
}

/// The kept entries among the first `k` that are not files.
pub open spec fn dive_upto(force: Patterns, patterns: Patterns, es: Seq<Entry>, k: int) -> Seq<(Seq<char>, EntryKind)>
    decreases k,
{
    if k <= 0 {
        Seq::empty()
    } else {
        let e = es[k - 1];
        dive_upto(force, patterns, es, k - 1) + if kept(force, patterns, e) && e.kind != EntryKind::File {
            seq![(e.path@, e.kind)]
        } else {
            Seq::empty()
        }
    }
}

/// The kept files among the first `k` that a filter matches.
pub open spec fn grep_upto(force: Patterns, patterns: Patterns, filters: Filters, es: Seq<Entry>, k: int) -> Seq<(Seq<char>, usize)>
    decreases k,
{
    if k <= 0 {
        Seq::empty()
    } else {
        let e = es[k - 1];
        grep_upto(force, patterns, filters, es, k - 1) + if kept(force, patterns, e) && e.kind == EntryKind::File
            && any_matches(filters.shapes(), encode_utf8(e.path@)) {
            seq![(e.path@, e.len)]
        } else {
            Seq::empty()
        }
    }
}

pub open spec fn entry_keys(es: Seq<Entry>) -> Seq<(Seq<char>, EntryKind)> {
    es.map_values(|e: Entry| (e.path@, e.kind))
}

/// Splits the entries of a directory into those to walk into (directories,
/// links and the rest) and the files to search, in the order given.
pub fn plan_entries(
    force: &Patterns,
    patterns: &Patterns,
    filters: &Filters,
    entries: Vec<Entry>,
) -> (r: (Vec<Entry>, Vec<FileTask>))
    requires
        force.wf(),
        patterns.wf(),
        filters.wf(),
    ensures
        entry_keys(r.0@) == dive_upto(*force, *patterns, entries@, entries@.len() as int),
        task_keys(r.1@) == grep_upto(*force, *patterns, *filters, entries@, entries@.len() as int),
{
    let ghost es = entries@;
    let n = entries.len();
    let mut input = entries;
    let mut dive: Vec<Entry> = Vec::new();
    let mut grep: Vec<FileTask> = Vec::new();
    let suffix: [u8; 11] = [0x2f, 0x2e, 0x67, 0x69, 0x74, 0x69, 0x67, 0x6e, 0x6f, 0x72, 0x65];
    assert(suffix@ =~= ignore_file_suffix());
    // Entries are taken from the back and put back in order at the end.
    let mut taken: Vec<Entry> = Vec::new();
    while input.len() > 0
        invariant
            input@ + taken@.reverse() == es,
        decreases input.len(),
    {
        let e = input.pop().unwrap();
        taken.push(e);
        proof {
            assert(taken@.reverse() =~= seq![e] + taken@.drop_last().reverse());
        }
        assert(input@ + taken@.reverse() =~= es);
    }
    assert(taken@.reverse() =~= es);
    let mut i: usize = 0;
    while taken.len() > 0
        invariant
            i + taken@.len() == es.len(),
            es.len() == n,
            taken@.reverse() == es.subrange(i as int, es.len() as int),
            suffix@ == ignore_file_suffix(),
            force.wf(),
            patterns.wf(),
            filters.wf(),
            entry_keys(dive@) == dive_upto(*force, *patterns, es, i as int),
            task_keys(grep@) == grep_upto(*force, *patterns, *filters, es, i as int),
        decreases taken.len(),
    {
        let ghost before = taken@;
        let e = taken.pop().unwrap();
        assert(e == es[i as int]) by {
            assert(before.reverse()[0] == before.last());
        }
        assert(taken@.reverse() =~= es.subrange(i + 1, es.len() as int)) by {
            assert(before =~= taken@.push(e));
            assert(before.reverse() =~= seq![e] + taken@.reverse());
            assert(es.subrange(i + 1, es.len() as int) =~= es.subrange(i as int, es.len() as int).drop_first());
        }
        let p = e.path.as_str().as_bytes();
        let is_dir = e.kind == EntryKind::Dir;
        let keep = !crate::text::ends_with_bytes(p, &suffix) && !force.is_excluded(
            e.path.as_str(),
            is_dir,
        ) && !patterns.is_excluded(e.path.as_str(), is_dir);
        let ghost d0 = dive@;
        let ghost g0 = grep@;
        if keep {
            if e.kind == EntryKind::File {
                if filters.matches(e.path.as_str()) {
                    grep.push(FileTask { path: e.path, len: e.len });
                    assert(task_keys(grep@) =~= task_keys(g0).push((es[i as int].path@, es[i as int].len)));
                }
            } else {
                dive.push(e);
                assert(entry_keys(dive@) =~= entry_keys(d0).push((es[i as int].path@, es[i as int].kind)));
            }
        }
        i += 1;
        assert(entry_keys(dive@) =~= dive_upto(*force, *patterns, es, i as int));
        assert(task_keys(grep@) =~= grep_upto(*force, *patterns, *filters, es, i as int));
    }
    (dive, grep)
}

} // verus!
