//! Output sinks: a writer takes one line of output at a time.
use vstd::prelude::*;

verus! {

/// Takes lines of output.
pub trait Writer {
    fn write(&mut self, content: &str);
}

/// Lines kept in memory, in the order written, until they are flushed.
pub struct BufferedWriter {
    lines: Vec<String>,
}

pub open spec fn texts(lines: Seq<String>) -> Seq<Seq<char>> {
    lines.map_values(|s: String| s@)
}

impl View for BufferedWriter {
    type V = Seq<Seq<char>>;

    closed spec fn view(&self) -> Seq<Seq<char>> {
        texts(self.lines@)
    }
}

impl BufferedWriter {
    pub fn new() -> (r: BufferedWriter)
        ensures
            r@ == Seq::<Seq<char>>::empty(),
    {
        let r = BufferedWriter { lines: Vec::new() };
        assert(r@ =~= Seq::<Seq<char>>::empty());
        r
    }

    /// Keeps one line.
    pub fn push_line(&mut self, content: &str)
        ensures
            final(self)@ == old(self)@.push(content@),
    {
        let ghost before = self.lines@;
        self.lines.push(content.to_owned());
        assert(texts(self.lines@) =~= texts(before).push(content@));
    }

    /// Hands every kept line, in order, to `writer`.
    pub fn flush(&self, writer: &mut BufferedWriter)
        ensures
            final(writer)@ == old(writer)@ + self@,
    {
        let mut i: usize = 0;
        while i < self.lines.len()
            invariant
                i <= self.lines@.len(),
                writer@ == old(writer)@ + texts(self.lines@).subrange(0, i as int),
            decreases self.lines.len() - i,
        {
            writer.push_line(self.lines[i].as_str());
            i += 1;
            assert(writer@ =~= old(writer)@ + texts(self.lines@).subrange(0, i as int));
        }
        assert(texts(self.lines@).subrange(0, i as int) =~= self@);
    }

    pub fn has_some(&self) -> (r: bool)
        ensures
            r == (self@.len() > 0),
    {
        self.lines.len() > 0
    }

    /// The kept lines, in order.
    pub fn lines(&self) -> (r: &Vec<String>)
        ensures
            texts(r@) == self@,
    {
        &self.lines
    }
}

impl Writer for BufferedWriter {
    fn write(&mut self, content: &str) {
        self.push_line(content);
    }
}

} // verus!
