//! A route: a bounded sequence of parsed segments and the handler value it
//! carries, with construction from a pattern string and the matching
//! predicate that decides whether a needle path satisfies it.

use vstd::prelude::*;
use vstd::string::StrSliceExecFns;
use vstd::string::StringExecFns;

use crate::path::components_of;
use crate::path::lemma_split_path_len_pos;
use crate::path::lemma_split_path_step;
use crate::path::seek_sep;
use crate::path::split_path;
use crate::path::trim_bounds;
use crate::path::trim_seps;
use crate::segment::match_segment;
use crate::segment::parse_seg_spec;
use crate::segment::parse_segment;
use crate::segment::seg_matches;
use crate::segment::SegView;
use crate::segment::Segment;

verus! {

/// Why a pattern was refused.
#[derive(Debug, PartialEq, Eq)]
pub enum RouteError {
    /// The trimmed pattern has more components than the route can hold.
    TooManySegments,
    /// A wildcard component has at least one further component after it.
    WildcardMustBeLast,
}

/// A parsed route: at most `SEG_CAP` segments, plus an opaque handler
/// value that the matching logic never inspects.
#[derive(Debug)]
pub struct Route<Handler, const SEG_CAP: usize> {
    segments: Vec<Segment>,
    handler: Handler,
}

/// The mathematical image of a `Route`.
pub struct RouteView<Handler> {
    pub segments: Seq<SegView>,
    pub handler: Handler,
}

/// The views of a route's segments, in order.
pub open spec fn seg_views(segs: Seq<Segment>) -> Seq<SegView> {
    segs.map_values(|s: Segment| s@)
}

/// The segments a component list parses to, in order.
pub open spec fn parsed_comps(comps: Seq<Seq<char>>) -> Seq<SegView> {
    comps.map_values(|c: Seq<char>| parse_seg_spec(c))
}

impl<Handler, const SEG_CAP: usize> View for Route<Handler, SEG_CAP> {
    type V = RouteView<Handler>;

    closed spec fn view(&self) -> RouteView<Handler> {
        RouteView { segments: seg_views(self.segments@), handler: self.handler }
    }
}

/// Whether a route's segments accept a needle path.  The needle's
/// components (separators trimmed first) are walked pairwise against the
/// segments, left to right: they must not outnumber the segments, and each
/// must satisfy the segment at its position.  A needle with fewer
/// components than the route has segments is accepted once its own
/// components all match.
pub open spec fn route_matches(segs: Seq<SegView>, needle: Seq<char>) -> bool {
    let comps = components_of(needle);
    &&& comps.len() <= segs.len()
    &&& forall|i: int| 0 <= i < comps.len() ==> seg_matches(segs[i], #[trigger] comps[i])
}

/// Component `i` of a pattern parses to a wildcard that at least one
/// further component follows.
pub open spec fn wildcard_followed(comps: Seq<Seq<char>>, i: int) -> bool {
    parse_seg_spec(comps[i]) is Wildcard && i + 1 < comps.len()
}

/// Some component before `bound` is a misplaced wildcard.
pub open spec fn early_wildcard(comps: Seq<Seq<char>>, bound: int) -> bool {
    exists|i: int| 0 <= i < bound && wildcard_followed(comps, i)
}

/// The refusal `Route::new` answers a pattern with, if any.  Components
/// are scanned left to right; the first refusal reached decides: at index
/// `cap` the count is up, at a misplaced wildcard before that the wildcard
/// rule is broken first.
pub open spec fn new_route_err(comps: Seq<Seq<char>>, cap: int) -> Option<RouteError> {
    let n = comps.len() as int;
    let bound = if cap < n {
        cap
    } else {
        n
    };
    if early_wildcard(comps, bound) {
        Some(RouteError::WildcardMustBeLast)
    } else if n > cap {
        Some(RouteError::TooManySegments)
    } else {
        None
    }
}

/// What each refusal tells of the pattern: `WildcardMustBeLast` only ever
/// answers a wildcard component that at least one more component follows,
/// `TooManySegments` only ever a component count over the capacity, and an
/// accepted pattern is free of both faults.
pub proof fn lemma_route_err_sound(comps: Seq<Seq<char>>, cap: int)
    requires
        cap >= 0,
    ensures
        new_route_err(comps, cap) == Some(RouteError::WildcardMustBeLast) ==> exists|i: int|
            0 <= i < comps.len() && wildcard_followed(comps, i),
        new_route_err(comps, cap) == Some(RouteError::TooManySegments) ==> comps.len() > cap,
        new_route_err(comps, cap) is None ==> comps.len() <= cap && (forall|i: int|
            0 <= i < comps.len() ==> !wildcard_followed(comps, i)),
{
    let n = comps.len() as int;
    let bound = if cap < n {
        cap
    } else {
        n
    };
    if early_wildcard(comps, bound) {
        let i = choose|i: int| 0 <= i < bound && wildcard_followed(comps, i);
        assert(wildcard_followed(comps, i));
    }
}

/// Within capacity, a pattern is refused — then necessarily with
/// `WildcardMustBeLast` — exactly when some wildcard component has at
/// least one further component after it.
pub proof fn lemma_wildcard_must_be_last_iff(comps: Seq<Seq<char>>, cap: int)
    requires
        comps.len() <= cap,
    ensures
        new_route_err(comps, cap) == Some(RouteError::WildcardMustBeLast) <==> exists|i: int|
            0 <= i < comps.len() && wildcard_followed(comps, i),
{
}

/// With every wildcard standing last, a pattern is refused — then
/// necessarily with `TooManySegments` — exactly when the component count
/// of the trimmed pattern exceeds the capacity.
pub proof fn lemma_too_many_segments_iff(comps: Seq<Seq<char>>, cap: int)
    requires
        cap >= 0,
        forall|i: int| 0 <= i < comps.len() ==> !wildcard_followed(comps, i),
    ensures
        new_route_err(comps, cap) == Some(RouteError::TooManySegments) <==> comps.len() > cap,
{
    let n = comps.len() as int;
    let bound = if cap < n {
        cap
    } else {
        n
    };
    assert(!early_wildcard(comps, bound));
}

impl<Handler, const SEG_CAP: usize> Route<Handler, SEG_CAP> {
    /// Route invariant: the segment count is within `SEG_CAP`, and a
    /// wildcard, where one stands at all, is the last segment.
    pub open spec fn wf(&self) -> bool {
        &&& self@.segments.len() <= SEG_CAP
        &&& forall|i: int|
            0 <= i < self@.segments.len() - 1 ==> !(#[trigger] self@.segments[i] is Wildcard)
    }

    /// Parses `pattern` into a route holding `handler`.
    ///
    /// The pattern is trimmed of leading and trailing '/' and split on
    /// '/'.  A pattern that trims to nothing is the root route, a single
    /// literal "/" segment (which is why such a pattern asks for at least
    /// one segment of room).  Every component must be non-empty; what an
    /// empty component would mean is left undefined here.
    #[verifier::loop_isolation(false)]
    pub fn new(pattern: &str, handler: Handler) -> (r: Result<Self, RouteError>)
        requires
            SEG_CAP >= 1 || components_of(pattern@).len() > 0,
            forall|i: int|
                0 <= i < components_of(pattern@).len() ==> (#[trigger] components_of(
                    pattern@,
                )[i]).len() > 0,
        ensures
            ({
                let comps = components_of(pattern@);
                &&& (r is Ok <==> new_route_err(comps, SEG_CAP as int) is None)
                &&& (r matches Err(e) ==> Some(e) == new_route_err(comps, SEG_CAP as int))
                &&& (r matches Ok(route) ==> {
                    &&& route.wf()
                    &&& route@.handler == handler
                    &&& route@.segments == (if comps.len() == 0 {
                        seq![SegView::Constant(seq!['/'])]
                    } else {
                        parsed_comps(comps)
                    })
                })
            }),
    {
        let ghost comps = components_of(pattern@);
        let (lo, hi) = trim_bounds(pattern);
        let mut segments: Vec<Segment> = Vec::new();
        if lo == hi {
            let root = String::from_str("/");
            proof {
                reveal_strlit("/");
                assert(root@ =~= seq!['/']);
            }
            segments.push(Segment::Constant(root));
            let route = Route { segments, handler };
            proof {
                assert(route@.segments =~= seq![SegView::Constant(seq!['/'])]);
            }
            return Ok(route);
        }
        let ghost t = trim_seps(pattern@);
        proof {
            assert(comps == split_path(t));
            assert(pattern@.subrange(lo as int, hi as int) =~= t);
            assert(comps.skip(0) =~= comps);
        }
        let mut i = lo;
        loop
            invariant
                lo <= i <= hi,
                split_path(pattern@.subrange(i as int, hi as int)) == comps.skip(
                    segments@.len() as int,
                ),
                segments@.len() <= comps.len(),
                segments@.len() <= SEG_CAP,
                seg_views(segments@) == parsed_comps(comps.take(segments@.len() as int)),
                forall|k: int| 0 <= k < segments@.len() ==> !wildcard_followed(comps, k),
            decreases hi - i,
        {
            let c = segments.len();
            let j = seek_sep(pattern, i, hi);
            proof {
                lemma_split_path_step(pattern@, i as int, j as int, hi as int);
                let u = pattern@.subrange(i as int, hi as int);
                assert(split_path(u) == comps.skip(c as int));
                if j < hi {
                    lemma_split_path_len_pos(pattern@.subrange(j + 1, hi as int));
                    assert(split_path(u)[0] == pattern@.subrange(i as int, j as int));
                } else {
                    assert(split_path(u)[0] == pattern@.subrange(i as int, j as int));
                }
                assert(comps.skip(c as int)[0] == comps[c as int]);
                assert(comps[c as int] == pattern@.subrange(i as int, j as int));
            }
            if c == SEG_CAP {
                proof {
                    assert(!early_wildcard(comps, SEG_CAP as int));
                }
                return Err(RouteError::TooManySegments);
            }
            let comp = pattern.substring_char(i, j);
            let seg = parse_segment(comp);
            if j < hi && matches!(seg, Segment::Wildcard) {
                proof {
                    assert(comps.skip(c as int).drop_first() =~= comps.skip(c as int + 1));
                    assert(wildcard_followed(comps, c as int));
                }
                return Err(RouteError::WildcardMustBeLast);
            }
            let ghost pre = segments@;
            segments.push(seg);
            proof {
                assert forall|k: int| 0 <= k < c + 1 implies seg_views(segments@)[k]
                    == parsed_comps(comps.take(c as int + 1))[k] by {
                    if k < c {
                        assert(seg_views(segments@)[k] == segments@[k]@);
                        assert(segments@[k] == pre[k]);
                        assert(seg_views(pre)[k] == parsed_comps(comps.take(c as int))[k]);
                        assert(parsed_comps(comps.take(c as int))[k] == parse_seg_spec(
                            comps[k],
                        ));
                        assert(parsed_comps(comps.take(c as int + 1))[k] == parse_seg_spec(
                            comps[k],
                        ));
                    } else {
                        assert(segments@[k] == seg);
                    }
                }
                assert(seg_views(segments@) =~= parsed_comps(comps.take(c as int + 1)));
            }
            if j == hi {
                proof {
                    assert(comps.len() == c + 1);
                    assert(comps.take(c as int + 1) =~= comps);
                    assert forall|k: int|
                        0 <= k < comps.len() implies !wildcard_followed(comps, k) by {}
                    assert(new_route_err(comps, SEG_CAP as int) is None);
                }
                let route = Route { segments, handler };
                proof {
                    assert(route@.segments == parsed_comps(comps));
                    assert forall|k: int|
                        0 <= k < route@.segments.len() - 1 implies !(#[trigger] route@.segments[k]
                            is Wildcard) by {
                        assert(route@.segments[k] == parse_seg_spec(comps[k]));
                        assert(!wildcard_followed(comps, k));
                    }
                }
                return Ok(route);
            }
            proof {
                assert(comps.skip(c as int).drop_first() =~= comps.skip(c as int + 1));
            }
            i = j + 1;
        }
    }

    /// Whether `needle` satisfies this route's pattern.
    #[verifier::loop_isolation(false)]
    pub fn full_match(&self, needle: &str) -> (r: bool)
        ensures
            r == route_matches(self@.segments, needle@),
    {
        let ghost comps = components_of(needle@);
        let (lo, hi) = trim_bounds(needle);
        if lo == hi {
            return true;
        }
        let ghost t = trim_seps(needle@);
        proof {
            assert(comps == split_path(t));
            assert(needle@.subrange(lo as int, hi as int) =~= t);
            assert(comps.skip(0) =~= comps);
        }
        let nseg = self.segments.len();
        let mut i = lo;
        let mut c: usize = 0;
        loop
            invariant
                lo <= i <= hi,
                c <= nseg,
                split_path(needle@.subrange(i as int, hi as int)) == comps.skip(c as int),
                c <= comps.len(),
                forall|k: int|
                    0 <= k < c ==> seg_matches(self@.segments[k], #[trigger] comps[k]),
            decreases hi - i,
        {
            let j = seek_sep(needle, i, hi);
            proof {
                lemma_split_path_step(needle@, i as int, j as int, hi as int);
                let u = needle@.subrange(i as int, hi as int);
                assert(split_path(u) == comps.skip(c as int));
                if j < hi {
                    lemma_split_path_len_pos(needle@.subrange(j + 1, hi as int));
                    assert(split_path(u)[0] == needle@.subrange(i as int, j as int));
                } else {
                    assert(split_path(u)[0] == needle@.subrange(i as int, j as int));
                }
                assert(comps.skip(c as int)[0] == comps[c as int]);
                assert(comps[c as int] == needle@.subrange(i as int, j as int));
            }
            if c == nseg {
                return false;
            }
            let comp = needle.substring_char(i, j);
            if !match_segment(comp, &self.segments[c]) {
                return false;
            }
            c = c + 1;
            if j == hi {
                proof {
                    assert(comps.len() == c);
                }
                return true;
            }
            proof {
                assert(comps.skip(c - 1).drop_first() =~= comps.skip(c as int));
            }
            i = j + 1;
        }
    }

    /// The handler value this route carries.
    pub fn handler(&self) -> (h: &Handler)
        ensures
            *h == self@.handler,
    {
        &self.handler
    }

    /// How many segments the route has.
    pub fn len(&self) -> (n: usize)
        ensures
            n == self@.segments.len(),
    {
        self.segments.len()
    }

    /// Whether the route has no segments at all.
    pub fn is_empty(&self) -> (r: bool)
        ensures
            r == (self@.segments.len() == 0),
    {
        self.segments.is_empty()
    }

    /// The route's segments, in order.
    pub fn as_slice(&self) -> (s: &[Segment])
        ensures
            seg_views(s@) == self@.segments,
    {
        self.segments.as_slice()
    }
}

} // verus!
