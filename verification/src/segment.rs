//! The path segment model: one component of a path, optionally annotated
//! with a numeric depth marker, and the sequence types built from it.

use vstd::prelude::*;

verus! {

/// One component of a path.
///
/// The segment borrows its text from the source buffer that produced it;
/// the model never owns a copy of the text. `PartDepth` additionally carries
/// an unsigned `depth`, pure metadata recorded by the surrounding compiler:
/// only the text ever participates in resolution.
#[derive(Debug, PartialEq, Eq, Hash, Clone, Copy)]
pub enum PathPart<'a> {
    Part(&'a str),
    PartDepth(&'a str, u32),
}

/// An owned path: an ordered list of segments, outermost scope first.
pub type PathBuf<'a> = Vec<PathPart<'a>>;

/// A borrowed view over an owned path.
pub type Path<'a, 'b> = &'b [PathPart<'a>];

impl<'a> PathPart<'a> {
    /// The borrowed text slice of the segment, regardless of variant.
    pub open spec fn fragment(self) -> &'a str {
        match self {
            PathPart::Part(s) => s,
            PathPart::PartDepth(s, _) => s,
        }
    }

    /// The text of the segment as a sequence of characters.
    pub open spec fn text(self) -> Seq<char> {
        self.fragment()@
    }

    /// Returns the segment's source text, for either variant.
    pub fn inner(&self) -> (r: &'a str)
        ensures
            r == self.fragment(),
    {
        match *self {
            PathPart::Part(s) => s,
            PathPart::PartDepth(s, _) => s,
        }
    }

    /// Attaches the given depth, preserving the text: a `Part` becomes a
    /// `PartDepth`, and an existing `PartDepth` has its depth overwritten.
    pub fn with_depth(&mut self, depth: u32)
        ensures
            *final(self) == PathPart::PartDepth(old(self).fragment(), depth),
    {
        *self = match *self {
            PathPart::Part(s) => PathPart::PartDepth(s, depth),
            PathPart::PartDepth(s, _) => PathPart::PartDepth(s, depth),
        };
    }
}

/// The texts of a path's segments, in order: the part of a path that
/// resolution may inspect.
pub open spec fn texts_of<'a>(p: Seq<PathPart<'a>>) -> Seq<Seq<char>> {
    p.map_values(|q: PathPart<'a>| q.text())
}

/// Taking a prefix of a path takes the same prefix of its texts.
pub proof fn lemma_texts_of_take<'a>(p: Seq<PathPart<'a>>, n: int)
    requires
        0 <= n <= p.len(),
    ensures
        texts_of(p.take(n)) == texts_of(p).take(n),
{
    assert(texts_of(p.take(n)) =~= texts_of(p).take(n));
}

/// Dropping a prefix of a path drops the same prefix of its texts.
pub proof fn lemma_texts_of_skip<'a>(p: Seq<PathPart<'a>>, n: int)
    requires
        0 <= n <= p.len(),
    ensures
        texts_of(p.skip(n)) == texts_of(p).skip(n),
{
    assert(texts_of(p.skip(n)) =~= texts_of(p).skip(n));
}

/// The texts of a concatenation are the concatenated texts.
pub proof fn lemma_texts_of_concat<'a>(a: Seq<PathPart<'a>>, b: Seq<PathPart<'a>>)
    ensures
        texts_of(a + b) == texts_of(a) + texts_of(b),
{
    assert(texts_of(a + b) =~= texts_of(a) + texts_of(b));
}

} // verus!
