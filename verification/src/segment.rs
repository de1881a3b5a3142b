//! One pattern component: its parsed form, how it is parsed, and how one
//! needle component satisfies it.

use vstd::prelude::*;
use vstd::string::StrSliceExecFns;
use vstd::string::StringExecFns;

verus! {

/// A typed pattern component.
#[derive(Debug, PartialEq, Eq)]
pub enum Segment {
    /// Literal text the needle component must begin with.
    Constant(String),
    /// A named placeholder; any non-empty needle component satisfies it.
    Named(String),
    /// The catch-the-rest marker; only ever the last segment of a route.
    Wildcard,
}

/// The mathematical image of a `Segment`: the same three shapes over
/// character sequences.
pub enum SegView {
    Constant(Seq<char>),
    Named(Seq<char>),
    Wildcard,
}

impl View for Segment {
    type V = SegView;

    open spec fn view(&self) -> SegView {
        match self {
            Segment::Constant(s) => SegView::Constant(s@),
            Segment::Named(s) => SegView::Named(s@),
            Segment::Wildcard => SegView::Wildcard,
        }
    }
}

/// What parsing one component yields: a leading ':' marks a named
/// placeholder holding the rest, a leading '*' the wildcard (any text
/// after the '*' is ignored), anything else a literal holding the whole
/// component.
pub open spec fn parse_seg_spec(comp: Seq<char>) -> SegView {
    if comp.len() > 0 && comp[0] == ':' {
        SegView::Named(comp.skip(1))
    } else if comp.len() > 0 && comp[0] == '*' {
        SegView::Wildcard
    } else {
        SegView::Constant(comp)
    }
}

/// Character count of the pattern text a segment was written as: a
/// literal's own length, a name plus its leading ':', one for the '*'.
pub open spec fn seg_source_len(seg: SegView) -> nat {
    match seg {
        SegView::Constant(s) => s.len(),
        SegView::Named(s) => s.len() + 1,
        SegView::Wildcard => 1,
    }
}

/// Whether one needle component satisfies one segment.  A literal asks the
/// component to begin with exactly its characters (a prefix comparison,
/// not full equality); a named placeholder takes any non-empty component;
/// the wildcard takes a component that itself begins with '*' and holds no
/// further '*'.
pub open spec fn seg_matches(seg: SegView, comp: Seq<char>) -> bool {
    match seg {
        SegView::Constant(text) => text.len() <= comp.len() && comp.take(text.len() as int)
            == text,
        SegView::Named(_) => comp.len() > 0,
        SegView::Wildcard => comp.len() > 0 && comp[0] == '*' && (forall|i: int|
            1 <= i < comp.len() ==> comp[i] != '*'),
    }
}

/// Turns one non-empty path component into its typed segment.
pub fn parse_segment(input: &str) -> (seg: Segment)
    requires
        input@.len() > 0,
    ensures
        seg@ == parse_seg_spec(input@),
{
    let first = input.get_char(0);
    if first == ':' {
        let name = input.substring_char(1, input.unicode_len());
        proof {
            assert(name@ =~= input@.skip(1));
        }
        Segment::Named(String::from_str(name))
    } else if first == '*' {
        Segment::Wildcard
    } else {
        Segment::Constant(String::from_str(input))
    }
}

/// Decides `seg_matches` for one needle component against one segment.
pub fn match_segment(needle: &str, seg: &Segment) -> (r: bool)
    ensures
        r == seg_matches(seg@, needle@),
{
    match seg {
        Segment::Constant(text) => {
            let tlen = text.as_str().unicode_len();
            let nlen = needle.unicode_len();
            if tlen > nlen {
                return false;
            }
            let mut i: usize = 0;
            while i < tlen
                invariant
                    seg@ == SegView::Constant(text@),
                    i <= tlen,
                    tlen == text@.len(),
                    tlen <= nlen == needle@.len(),
                    forall|k: int| 0 <= k < i ==> needle@[k] == text@[k],
                decreases tlen - i,
            {
                if needle.get_char(i) != text.as_str().get_char(i) {
                    proof {
                        assert(needle@.take(tlen as int)[i as int] == needle@[i as int]);
                    }
                    return false;
                }
                i = i + 1;
            }
            proof {
                assert(needle@.take(tlen as int) =~= text@);
            }
            true
        },
        Segment::Named(_) => !needle.is_empty(),
        Segment::Wildcard => {
            let nlen = needle.unicode_len();
            if nlen == 0 || needle.get_char(0) != '*' {
                return false;
            }
            let mut i: usize = 1;
            while i < nlen
                invariant
                    seg@ == SegView::Wildcard,
                    1 <= i <= nlen == needle@.len(),
                    needle@[0] == '*',
                    forall|k: int| 1 <= k < i ==> needle@[k] != '*',
                decreases nlen - i,
            {
                if needle.get_char(i) == '*' {
                    return false;
                }
                i = i + 1;
            }
            true
        },
    }
}

impl Segment {
    /// Character count of the pattern text this segment was written as.
    pub fn len(&self) -> (n: usize)
        requires
            self@ matches SegView::Named(s) ==> s.len() < usize::MAX,
        ensures
            n == seg_source_len(self@),
    {
        match self {
            Segment::Constant(s) => s.as_str().unicode_len(),
            Segment::Named(s) => s.as_str().unicode_len() + 1,
            Segment::Wildcard => 1,
        }
    }
}

} // verus!
