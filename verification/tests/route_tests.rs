use bounded_router::Route;
use bounded_router::RouteError;
use bounded_router::Segment;

#[test]
fn root_route_single_segment() {
    let route = Route::<i32, 4>::new("/", 7).unwrap();
    assert_eq!(route.len(), 1);
    assert!(!route.is_empty());
    assert_eq!(route.as_slice(), &[Segment::Constant(String::from("/"))]);
    assert_eq!(*route.handler(), 7);
}

#[test]
fn all_separator_patterns_are_root() {
    let route = Route::<i32, 4>::new("", 1).unwrap();
    assert_eq!(route.as_slice(), &[Segment::Constant(String::from("/"))]);
    let route = Route::<i32, 4>::new("///", 2).unwrap();
    assert_eq!(route.as_slice(), &[Segment::Constant(String::from("/"))]);
}

#[test]
fn pattern_parses_into_typed_segments() {
    let route = Route::<(), 4>::new("/users/:id/*", ()).unwrap();
    assert_eq!(
        route.as_slice(),
        &[
            Segment::Constant(String::from("users")),
            Segment::Named(String::from("id")),
            Segment::Wildcard,
        ]
    );
    assert_eq!(route.len(), 3);
}

#[test]
fn pattern_trimming_ignores_outer_separators() {
    let a = Route::<(), 4>::new("a/b", ()).unwrap();
    let b = Route::<(), 4>::new("///a/b///", ()).unwrap();
    assert_eq!(a.as_slice(), b.as_slice());
}

#[test]
fn wildcard_must_be_last() {
    let err = Route::<(), 4>::new("/:a/*/b", ()).unwrap_err();
    assert_eq!(err, RouteError::WildcardMustBeLast);
    let err = Route::<(), 4>::new("*/x", ()).unwrap_err();
    assert_eq!(err, RouteError::WildcardMustBeLast);
    assert!(Route::<(), 4>::new("/:a/*", ()).is_ok());
}

#[test]
fn too_many_segments() {
    let err = Route::<(), 1>::new("a/b", ()).unwrap_err();
    assert_eq!(err, RouteError::TooManySegments);
    assert!(Route::<(), 2>::new("a/b", ()).is_ok());
}

#[test]
fn first_refusal_reached_decides_the_error() {
    // The misplaced wildcard stands before the capacity boundary.
    let err = Route::<(), 2>::new("a/*/c/d", ()).unwrap_err();
    assert_eq!(err, RouteError::WildcardMustBeLast);
    // The capacity boundary is reached before the misplaced wildcard.
    let err = Route::<(), 1>::new(":a/*/b", ()).unwrap_err();
    assert_eq!(err, RouteError::TooManySegments);
}

#[test]
fn constant_segments_match_by_prefix() {
    let route = Route::<(), 4>::new("foo", ()).unwrap();
    assert!(route.full_match("foo"));
    assert!(route.full_match("foobar"));
    assert!(!route.full_match("fo"));
    assert!(!route.full_match("bar"));
}

#[test]
fn named_segments_take_any_nonempty_component() {
    let route = Route::<(), 4>::new(":x/:y/:z", ()).unwrap();
    assert!(route.full_match("a/b/c"));
    assert!(route.full_match("a/b"));
    assert!(!route.full_match("a//b"));
    assert!(!route.full_match("a/b/c/d"));
}

#[test]
fn wildcard_segments_take_a_starred_component() {
    let route = Route::<(), 4>::new("*", ()).unwrap();
    assert!(route.full_match("*"));
    assert!(route.full_match("*abc"));
    assert!(!route.full_match("**"));
    assert!(!route.full_match("a*b"));
    assert!(!route.full_match("abc"));
    assert!(!route.full_match("a/b"));
}

#[test]
fn needle_trimming_ignores_outer_separators() {
    let route = Route::<(), 4>::new("hi", ()).unwrap();
    assert!(route.full_match("///hi///"));
    assert!(route.full_match("/hi"));
}

#[test]
fn exhausted_needle_still_matches() {
    let route = Route::<(), 4>::new(":greeting/hi/bye", ()).unwrap();
    assert!(route.full_match("/hello/hi"));
    assert!(route.full_match("/hello"));
    assert!(route.full_match("/"));
    assert!(!route.full_match("/hello/there"));
}

#[test]
fn parse_segment_kinds() {
    assert_eq!(
        bounded_router::segment::parse_segment(":name"),
        Segment::Named(String::from("name"))
    );
    assert_eq!(bounded_router::segment::parse_segment("*"), Segment::Wildcard);
    assert_eq!(bounded_router::segment::parse_segment("*rest"), Segment::Wildcard);
    assert_eq!(
        bounded_router::segment::parse_segment("files"),
        Segment::Constant(String::from("files"))
    );
}

#[test]
fn match_segment_per_kind() {
    let constant = Segment::Constant(String::from("ab"));
    assert!(bounded_router::segment::match_segment("ab", &constant));
    assert!(bounded_router::segment::match_segment("abc", &constant));
    assert!(!bounded_router::segment::match_segment("a", &constant));
    let named = Segment::Named(String::from("p"));
    assert!(bounded_router::segment::match_segment("anything", &named));
    assert!(!bounded_router::segment::match_segment("", &named));
    assert!(bounded_router::segment::match_segment("*only", &Segment::Wildcard));
    assert!(!bounded_router::segment::match_segment("*two*", &Segment::Wildcard));
    assert!(!bounded_router::segment::match_segment("", &Segment::Wildcard));
}

#[test]
fn segment_len_counts_source_text() {
    assert_eq!(Segment::Constant(String::from("abc")).len(), 3);
    assert_eq!(Segment::Named(String::from("ab")).len(), 3);
    assert_eq!(Segment::Wildcard.len(), 1);
}
