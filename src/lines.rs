//! Lines of a file held in memory: split on line feeds, one carriage return
//! dropped from the end of each line, decoded as UTF-8 where valid and byte
//! by byte otherwise.
use vstd::prelude::*;
use vstd::string::StringSliceAdditionalSpecFns;
use vstd::utf8::{decode_utf8, encode_utf8, encode_utf8_decode_utf8, valid_utf8};
use crate::text::{bytes_slice, memchr_find, string_of, utf8_str};

verus! {

/// The offset of the first line feed at or after `from`, or the length.
pub open spec fn next_newline(b: Seq<u8>, from: int) -> int
    decreases b.len() - from,
{
    if from >= b.len() || b[from] == 10 {
        from
    } else {
        next_newline(b, from + 1)
    }
}

/// A line without one trailing carriage return.
pub open spec fn strip_cr(l: Seq<u8>) -> Seq<u8> {
    if l.len() > 0 && l.last() == 13 {
        l.drop_last()
    } else {
        l
    }
}

/// The lines of `b` from offset `from` on, as bytes.
pub open spec fn lines_from(b: Seq<u8>, from: int) -> Seq<Seq<u8>>
    decreases b.len() - from,
{
    if from < 0 || from >= b.len() {
        Seq::empty()
    } else {
        let e = next_newline(b, from);
        if from <= e < b.len() {
            seq![strip_cr(b.subrange(from, e))] + lines_from(b, e + 1)
        } else {
            seq![strip_cr(b.subrange(from, b.len() as int))]
        }
    }
}

/// Each byte taken as the character of the same number.
pub open spec fn latin1(b: Seq<u8>) -> Seq<char> {
    b.map_values(|c: u8| c as char)
}

/// The text of a line: its UTF-8 decoding where valid, else byte by byte.
pub open spec fn line_text(b: Seq<u8>) -> Seq<char> {
    if valid_utf8(b) {
        decode_utf8(b)
    } else {
        latin1(b)
    }
}

proof fn lemma_next_newline(b: Seq<u8>, from: int, i: int)
    requires
        0 <= from <= i <= b.len(),
        forall|j: int| from <= j < i ==> b[j] != 10,
        i == b.len() || b[i] == 10,
    ensures
        next_newline(b, from) == i,
    decreases i - from,
{
    if from < i {
        lemma_next_newline(b, from + 1, i);
    }
}

/// Decodes one line.
pub fn decode_line(b: &[u8]) -> (r: String)
    ensures
        r@ == line_text(b@),
{
    match utf8_str(b) {
        Some(s) => {
            proof {
                encode_utf8_decode_utf8(s@);
            }
            s.to_owned()
        },
        None => {
            let mut cs: Vec<char> = Vec::new();
            let mut i: usize = 0;
            while i < b.len()
                invariant
                    i <= b@.len(),
                    cs@ == latin1(b@.subrange(0, i as int)),
                decreases b.len() - i,
            {
                cs.push(b[i] as char);
                i += 1;
                assert(cs@ =~= latin1(b@.subrange(0, i as int)));
            }
            assert(b@.subrange(0, b@.len() as int) =~= b@);
            string_of(&cs)
        },
    }
}

/// The lines of a file's contents.
pub fn split_lines(content: &[u8]) -> (r: Vec<String>)
    ensures
        r@.len() == lines_from(content@, 0).len(),
        forall|i: int| 0 <= i < r@.len() ==> #[trigger] r@[i]@ == line_text(lines_from(content@, 0)[i]),
{
    let ghost b = content@;
    let mut out: Vec<String> = Vec::new();
    let ghost done: Seq<Seq<u8>> = Seq::empty();
    let mut pos: usize = 0;
    while pos < content.len()
        invariant
            b == content@,
            pos <= b.len(),
            done + lines_from(b, pos as int) == lines_from(b, 0),
            out@.len() == done.len(),
            forall|i: int| 0 <= i < out@.len() ==> #[trigger] out@[i]@ == line_text(done[i]),
        decreases b.len() - pos,
    {
        let rest: &[u8] = &content[pos..content.len()];
        assert(rest@ =~= b.subrange(pos as int, b.len() as int));
        let end = match memchr_find(10u8, rest) {
            Some(k) => pos + k,
            None => content.len(),
        };
        proof {
            assert forall|j: int| pos <= j < end implies b[j] != 10 by {
                assert(rest@[j - pos] == b[j]);
            }
            if end < b.len() {
                assert(rest@[end - pos] == b[end as int]);
            }
            lemma_next_newline(b, pos as int, end as int);
        }
        let stop = if end > pos && content[end - 1] == 13u8 {
            end - 1
        } else {
            end
        };
        let line = bytes_slice(content, pos, stop);
        assert(line@ =~= strip_cr(b.subrange(pos as int, end as int)));
        let text = decode_line(line.as_slice());
        let ghost before = out@;
        out.push(text);
        proof {
            done = done.push(strip_cr(b.subrange(pos as int, end as int)));
            assert(out@.len() == done.len());
            assert forall|i: int| 0 <= i < out@.len() implies #[trigger] out@[i]@ == line_text(done[i]) by {
                if i < before.len() {
                    assert(out@[i] == before[i]);
                }
            }
            if end < b.len() {
                assert(done + lines_from(b, end + 1) =~= lines_from(b, 0)) by {
                    assert(lines_from(b, pos as int) == seq![strip_cr(b.subrange(pos as int, end as int))]
                        + lines_from(b, end + 1));
                }
            } else {
                assert(done =~= lines_from(b, 0)) by {
                    assert(lines_from(b, pos as int) == seq![strip_cr(b.subrange(pos as int, end as int))]);
                }
                assert(lines_from(b, end as int) =~= Seq::<Seq<u8>>::empty());
                assert(done + lines_from(b, end as int) =~= lines_from(b, 0));
            }
        }
        pos = if end < content.len() {
            end + 1
        } else {
            end
        };
    }
    proof {
        assert(lines_from(b, pos as int) == Seq::<Seq<u8>>::empty());
        assert(done =~= lines_from(b, 0));
    }
    out
}

/// The reader of an empty file: empty contents, no lines.
pub struct Zero {
    pub path: String,
}

impl Zero {
    pub fn new(path: String) -> (r: Zero)
        ensures
            r.path@ == path@,
    {
        Zero { path }
    }

    pub fn map(&self) -> (r: &'static str)
        ensures
            r@.len() == 0,
    {
        let e = "";
        proof {
            reveal_strlit("");
        }
        e
    }

    pub fn lines(&self) -> (r: Vec<String>)
        ensures
            r@.len() == 0,
    {
        Vec::new()
    }
}

} // verus!
