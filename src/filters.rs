//! Positive file filters: a file is searched when one of the filter globs
//! matches its path at any depth.
use vstd::prelude::*;
use vstd::utf8::encode_utf8;
use crate::patterns::{
    any_matches, classify, glob_compiles, globs_compile, set_matches, GitPattern, PatternSet, SetView,
    Shape,
};
use crate::text::{chars_of, lit3, starts_with, starts_with_chars, string_of};

verus! {

/// A filter anchored at any depth: itself when it starts with `**/`, else
/// `**/` followed by it.
pub open spec fn filter_text(f: Seq<char>) -> Seq<char> {
    if starts_with(f, seq!['*', '*', '/']) {
        f
    } else {
        seq!['*', '*', '/'] + f
    }
}

/// The shapes of the filters, in order.
pub open spec fn filter_shapes(fs: Seq<Seq<char>>) -> Seq<Shape> {
    fs.map_values(|f: Seq<char>| classify(filter_text(f)))
}

/// Some filter falls back to a glob that does not compile.
pub open spec fn some_filter_refused(fs: Seq<Seq<char>>) -> bool {
    exists|i: int|
        0 <= i < fs.len() && (#[trigger] filter_shapes(fs)[i] matches Shape::Glob(g) && !glob_compiles(g))
}

/// File filters: one set of patterns rooted at `/`.
pub struct Filters {
    patterns: PatternSet,
}

impl Filters {
    pub closed spec fn shapes(&self) -> Seq<Shape> {
        self.patterns@.all
    }

    pub closed spec fn wf(&self) -> bool {
        self.patterns.wf() && self.patterns@.root.len() == 0 && self.patterns@.dir_only.len() == 0
    }

    /// The filters compiled; `None` when one of them is a glob that does
    /// not compile.
    pub fn new(strings: &[String]) -> (r: Option<Filters>)
        ensures
            match r {
                Some(f) => f.wf() && f.shapes() == filter_shapes(strings@.map_values(|s: String| s@)),
                None => some_filter_refused(strings@.map_values(|s: String| s@)),
            },
    {
        let ghost fs = strings@.map_values(|s: String| s@);
        let mut patterns = PatternSet::new("/");
        proof {
            reveal_strlit("/");
            assert("/"@ =~= seq!['/']);
            assert(seq!['/'].drop_last() =~= Seq::<char>::empty());
            assert(crate::patterns::trim_end_char(seq!['/'], '/') == crate::patterns::trim_end_char(
                Seq::<char>::empty(),
                '/',
            ));
            assert(crate::patterns::trim_end_char(Seq::<char>::empty(), '/') == Seq::<char>::empty());
            assert(encode_utf8(Seq::<char>::empty()) =~= Seq::<u8>::empty());
        }
        let mut i: usize = 0;
        while i < strings.len()
            invariant
                fs == strings@.map_values(|s: String| s@),
                i <= strings@.len(),
                patterns.wf(),
                patterns@.root.len() == 0,
                patterns@.dir_only.len() == 0,
                patterns@.all == filter_shapes(fs.subrange(0, i as int)),
            decreases strings.len() - i,
        {
            let cs = chars_of(strings[i].as_str());
            assert(cs@ == fs[i as int]);
            let text = if starts_with_chars(&cs, &lit3('*', '*', '/')) {
                string_of(&cs)
            } else {
                let mut t = lit3('*', '*', '/');
                t.extend_from_slice(&cs);
                string_of(&t)
            };
            assert(text@ == filter_text(fs[i as int]));
            match GitPattern::new(text.as_str()) {
                Some(p) => {
                    patterns.push(p, false);
                },
                None => {
                    assert(filter_shapes(fs)[i as int] == classify(filter_text(fs[i as int])));
                    return None;
                },
            }
            i += 1;
            assert(filter_shapes(fs.subrange(0, i as int)) =~= filter_shapes(fs.subrange(0, i - 1)).push(
                classify(filter_text(fs[i - 1])),
            ));
        }
        assert(fs.subrange(0, i as int) =~= fs);
        Some(Filters { patterns })
    }

    /// Whether some filter matches the path.
    pub fn matches(&self, path: &str) -> (r: bool)
        requires
            self.wf(),
        ensures
            r == any_matches(self.shapes(), encode_utf8(path@)),
    {
        let r = self.patterns.matches(path, false);
        assert(crate::patterns::truncate(self.patterns@.root, encode_utf8(path@)) =~= encode_utf8(path@));
        r
    }
}

} // verus!
