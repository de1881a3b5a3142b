//! The router: a bounded, insertion-ordered collection of routes with
//! append-only insertion, first-match lookup, and an all-matches filter.

use vstd::prelude::*;

use crate::route::route_matches;
use crate::route::Route;
use crate::route::RouteView;

verus! {

/// A router holding at most `CAP` routes, each of at most `SEG_CAP`
/// segments, in insertion order.
#[derive(Debug)]
pub struct Router<Handler, const CAP: usize, const SEG_CAP: usize> {
    routes: Vec<Route<Handler, SEG_CAP>>,
}

impl<Handler, const CAP: usize, const SEG_CAP: usize> View for Router<Handler, CAP, SEG_CAP> {
    type V = Seq<RouteView<Handler>>;

    closed spec fn view(&self) -> Seq<RouteView<Handler>> {
        self.routes@.map_values(|r: Route<Handler, SEG_CAP>| r@)
    }
}

/// Position of the first route whose pattern accepts `needle`, or the
/// length of `routes` when none does.
pub open spec fn first_match<Handler>(routes: Seq<RouteView<Handler>>, needle: Seq<char>) -> int
    decreases routes.len(),
{
    if routes.len() == 0 {
        0
    } else if route_matches(routes[0].segments, needle) {
        0
    } else {
        1 + first_match(routes.drop_first(), needle)
    }
}

/// The routes whose patterns accept `needle`, in insertion order.
pub open spec fn matching_routes<Handler>(
    routes: Seq<RouteView<Handler>>,
    needle: Seq<char>,
) -> Seq<RouteView<Handler>>
    decreases routes.len(),
{
    if routes.len() == 0 {
        Seq::empty()
    } else {
        let rest = matching_routes(routes.drop_first(), needle);
        if route_matches(routes[0].segments, needle) {
            seq![routes[0]] + rest
        } else {
            rest
        }
    }
}

/// `first_match` lies within bounds, no route before it matches, and the
/// route it points at (when within the list) matches.
pub proof fn lemma_first_match_bounds<Handler>(routes: Seq<RouteView<Handler>>, needle: Seq<char>)
    ensures
        0 <= first_match(routes, needle) <= routes.len(),
        first_match(routes, needle) < routes.len() ==> route_matches(
            routes[first_match(routes, needle)].segments,
            needle,
        ),
        forall|j: int|
            0 <= j < first_match(routes, needle) ==> !route_matches(
                (#[trigger] routes[j]).segments,
                needle,
            ),
    decreases routes.len(),
{
    if routes.len() > 0 && !route_matches(routes[0].segments, needle) {
        let rest = routes.drop_first();
        lemma_first_match_bounds(rest, needle);
        let fm = first_match(routes, needle);
        assert(fm == 1 + first_match(rest, needle));
        if fm < routes.len() {
            assert(routes[fm] == rest[fm - 1]);
        }
        assert forall|j: int| 0 <= j < fm implies !route_matches(
            (#[trigger] routes[j]).segments,
            needle,
        ) by {
            if j > 0 {
                assert(routes[j] == rest[j - 1]);
            }
        }
    }
}

/// `first_match` is the position before which nothing matches and at which
/// (short of the end) something does.
pub proof fn lemma_first_match_at<Handler>(
    routes: Seq<RouteView<Handler>>,
    needle: Seq<char>,
    i: int,
)
    requires
        0 <= i <= routes.len(),
        forall|j: int| 0 <= j < i ==> !route_matches((#[trigger] routes[j]).segments, needle),
        i < routes.len() ==> route_matches(routes[i].segments, needle),
    ensures
        first_match(routes, needle) == i,
    decreases routes.len(),
{
    if routes.len() > 0 && i > 0 {
        let rest = routes.drop_first();
        assert(forall|j: int|
            0 <= j < i - 1 ==> !route_matches((#[trigger] rest[j]).segments, needle));
        lemma_first_match_at(rest, needle, i - 1);
    }
}

/// Appending one route extends the match list by that route exactly when
/// it matches.
pub proof fn lemma_matching_routes_push<Handler>(
    routes: Seq<RouteView<Handler>>,
    needle: Seq<char>,
    x: RouteView<Handler>,
)
    ensures
        matching_routes(routes.push(x), needle) == matching_routes(routes, needle) + (
        if route_matches(x.segments, needle) {
            seq![x]
        } else {
            Seq::<RouteView<Handler>>::empty()
        }),
    decreases routes.len(),
{
    let p = routes.push(x);
    let tail = if route_matches(x.segments, needle) {
        seq![x]
    } else {
        Seq::<RouteView<Handler>>::empty()
    };
    if routes.len() == 0 {
        assert(p[0] == x);
        assert(p.drop_first() =~= Seq::<RouteView<Handler>>::empty());
        assert(matching_routes(Seq::<RouteView<Handler>>::empty(), needle)
            == Seq::<RouteView<Handler>>::empty());
        assert(matching_routes(routes, needle) == Seq::<RouteView<Handler>>::empty());
        assert(matching_routes(routes, needle) + tail =~= tail);
        if route_matches(x.segments, needle) {
            assert(matching_routes(p, needle) == seq![x] + Seq::<RouteView<Handler>>::empty());
            assert(seq![x] + Seq::<RouteView<Handler>>::empty() =~= seq![x]);
        } else {
            assert(matching_routes(p, needle) == Seq::<RouteView<Handler>>::empty());
        }
    } else {
        assert(p[0] == routes[0]);
        assert(p.drop_first() =~= routes.drop_first().push(x));
        lemma_matching_routes_push(routes.drop_first(), needle, x);
        let rest = matching_routes(routes.drop_first(), needle);
        if route_matches(routes[0].segments, needle) {
            assert(seq![routes[0]] + (rest + tail) =~= (seq![routes[0]] + rest) + tail);
        }
    }
}

impl<Handler, const CAP: usize, const SEG_CAP: usize> Router<Handler, CAP, SEG_CAP> {
    /// Router invariant: the route count is within `CAP`.
    pub open spec fn wf(&self) -> bool {
        self@.len() <= CAP
    }

    /// An empty router.
    pub fn new() -> (r: Self)
        ensures
            r@ == Seq::<RouteView<Handler>>::empty(),
            r.wf(),
    {
        let routes: Vec<Route<Handler, SEG_CAP>> = Vec::new();
        let r = Router { routes };
        proof {
            assert(r@ =~= Seq::<RouteView<Handler>>::empty());
        }
        r
    }

    /// Appends `route` at the next free slot; a full router refuses and
    /// hands the route back unchanged, touching nothing.
    pub fn add_route(&mut self, route: Route<Handler, SEG_CAP>) -> (r: Result<
        (),
        Route<Handler, SEG_CAP>,
    >)
        requires
            old(self).wf(),
        ensures
            final(self).wf(),
            r is Ok <==> old(self)@.len() < CAP,
            r is Ok ==> final(self)@ == old(self)@.push(route@),
            r matches Err(rt) ==> rt == route && final(self)@ == old(self)@,
    {
        if self.routes.len() == CAP {
            return Err(route);
        }
        let ghost pre = self.routes@;
        self.routes.push(route);
        proof {
            assert(self@ =~= pre.map_values(|rr: Route<Handler, SEG_CAP>| rr@).push(route@));
        }
        Ok(())
    }

    /// The first route, in insertion order, whose pattern accepts
    /// `needle`; `None` when no route does.
    pub fn find(&self, needle: &str) -> (r: Option<&Route<Handler, SEG_CAP>>)
        ensures
            r is Some <==> first_match(self@, needle@) < self@.len(),
            r matches Some(rt) ==> rt@ == self@[first_match(self@, needle@)] && route_matches(
                rt@.segments,
                needle@,
            ),
            forall|j: int|
                0 <= j < first_match(self@, needle@) ==> !route_matches(
                    (#[trigger] self@[j]).segments,
                    needle@,
                ),
            r is None ==> forall|j: int|
                0 <= j < self@.len() ==> !route_matches((#[trigger] self@[j]).segments, needle@),
    {
        let mut i: usize = 0;
        while i < self.routes.len()
            invariant
                i <= self.routes@.len(),
                self@.len() == self.routes@.len(),
                forall|j: int|
                    0 <= j < i ==> !route_matches((#[trigger] self@[j]).segments, needle@),
            decreases self.routes@.len() - i,
        {
            let rt = &self.routes[i];
            proof {
                assert(rt@ == self@[i as int]);
            }
            if rt.full_match(needle) {
                proof {
                    lemma_first_match_at(self@, needle@, i as int);
                }
                return Some(rt);
            }
            i = i + 1;
        }
        proof {
            lemma_first_match_at(self@, needle@, self@.len() as int);
        }
        None
    }

    /// Every route whose pattern accepts `needle`, in insertion order; the
    /// router itself is left untouched.
    pub fn filter(&self, needle: &str) -> (matches: Vec<&Route<Handler, SEG_CAP>>)
        ensures
            matches@.len() == matching_routes(self@, needle@).len(),
            forall|k: int|
                0 <= k < matches@.len() ==> (#[trigger] matches@[k])@ == matching_routes(
                    self@,
                    needle@,
                )[k],
    {
        let mut found: Vec<&Route<Handler, SEG_CAP>> = Vec::new();
        let mut i: usize = 0;
        while i < self.routes.len()
            invariant
                i <= self.routes@.len(),
                self@.len() == self.routes@.len(),
                found@.len() == matching_routes(self@.take(i as int), needle@).len(),
                forall|k: int|
                    0 <= k < found@.len() ==> (#[trigger] found@[k])@ == matching_routes(
                        self@.take(i as int),
                        needle@,
                    )[k],
            decreases self.routes@.len() - i,
        {
            let ghost seen = self@.take(i as int);
            let rt = &self.routes[i];
            proof {
                assert(rt@ == self@[i as int]);
                assert(self@.take(i + 1) =~= seen.push(self@[i as int]));
                lemma_matching_routes_push(seen, needle@, self@[i as int]);
            }
            if rt.full_match(needle) {
                found.push(rt);
            }
            i = i + 1;
        }
        proof {
            assert(self@.take(self@.len() as int) =~= self@);
        }
        found
    }

    /// How many routes the router holds.
    pub fn len(&self) -> (n: usize)
        ensures
            n == self@.len(),
    {
        self.routes.len()
    }

    /// Whether the router holds no route at all.
    pub fn is_empty(&self) -> (r: bool)
        ensures
            r == (self@.len() == 0),
    {
        self.routes.is_empty()
    }

    /// The routes, in insertion order.
    pub fn as_slice(&self) -> (s: &[Route<Handler, SEG_CAP>])
        ensures
            s@.len() == self@.len(),
            forall|k: int| 0 <= k < s@.len() ==> (#[trigger] s@[k])@ == self@[k],
    {
        self.routes.as_slice()
    }
}

impl<Handler, const CAP: usize, const SEG_CAP: usize> Default for Router<Handler, CAP, SEG_CAP> {
    /// An empty router.
    fn default() -> (r: Self)
        ensures
            r@ == Seq::<RouteView<Handler>>::empty(),
            r.wf(),
    {
        Self::new()
    }
}

/// Lookup is order-sensitive: of two routes that both accept the same
/// needle, `find` answers with the one that was inserted first, never the
/// later one.
pub proof fn lemma_find_order_sensitive<Handler>(
    routes: Seq<RouteView<Handler>>,
    needle: Seq<char>,
    i: int,
    j: int,
)
    requires
        0 <= i < j < routes.len(),
        route_matches(routes[i].segments, needle),
        route_matches(routes[j].segments, needle),
    ensures
        first_match(routes, needle) <= i,
        route_matches(routes[first_match(routes, needle)].segments, needle),
{
    lemma_first_match_bounds(routes, needle);
}

/// Filtering is the same as repeatedly finding and excluding: the match
/// list is empty exactly when nothing matches, and otherwise begins with
/// the first match, followed by the match list of the routes after it.
pub proof fn lemma_filter_is_repeated_find<Handler>(
    routes: Seq<RouteView<Handler>>,
    needle: Seq<char>,
)
    ensures
        matching_routes(routes, needle).len() == 0 <==> first_match(routes, needle)
            == routes.len(),
        first_match(routes, needle) < routes.len() ==> matching_routes(routes, needle) == seq![
            routes[first_match(routes, needle)],
        ] + matching_routes(routes.skip(first_match(routes, needle) + 1), needle),
    decreases routes.len(),
{
    if routes.len() == 0 {
    } else if route_matches(routes[0].segments, needle) {
        assert(routes.skip(1) =~= routes.drop_first());
    } else {
        lemma_filter_is_repeated_find(routes.drop_first(), needle);
        let fm = first_match(routes, needle);
        lemma_first_match_bounds(routes, needle);
        if fm < routes.len() {
            assert(routes.drop_first().skip(fm) =~= routes.skip(fm + 1));
            assert(routes.drop_first()[fm - 1] == routes[fm]);
        }
    }
}

} // verus!
