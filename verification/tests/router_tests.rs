use bounded_router::Route;
use bounded_router::Router;
use bounded_router::Segment;

fn greeting_router() -> Router<i32, 50, 4> {
    let mut router = Router::<i32, 50, 4>::new();
    router.add_route(Route::new("/", 1).unwrap()).unwrap();
    router.add_route(Route::new(":greeting", 2).unwrap()).unwrap();
    router.add_route(Route::new("greetings", 3).unwrap()).unwrap();
    router.add_route(Route::new(":greeting/hi", 4).unwrap()).unwrap();
    router
}

#[test]
fn new_router_is_empty() {
    let router = Router::<(), 8, 4>::new();
    assert_eq!(router.len(), 0);
    assert!(router.is_empty());
    assert!(router.as_slice().is_empty());
    let router = Router::<(), 8, 4>::default();
    assert!(router.is_empty());
}

#[test]
fn lookups_on_an_empty_router_find_nothing() {
    let router = Router::<(), 8, 4>::new();
    assert!(router.find("/anything").is_none());
    assert!(router.filter("/anything").is_empty());
}

#[test]
fn zero_capacity_router_rejects_every_route() {
    let mut router = Router::<i32, 0, 4>::new();
    let rejected = router.add_route(Route::new("a", 9).unwrap()).unwrap_err();
    assert_eq!(*rejected.handler(), 9);
    assert_eq!(router.len(), 0);
}

#[test]
fn capacity_overflow_returns_the_route_unchanged() {
    let mut router = Router::<i32, 2, 4>::new();
    assert!(router.add_route(Route::new("a", 1).unwrap()).is_ok());
    assert!(router.add_route(Route::new("b", 2).unwrap()).is_ok());
    assert_eq!(router.len(), 2);
    let rejected = router.add_route(Route::new("c/:d", 3).unwrap()).unwrap_err();
    assert_eq!(router.len(), 2);
    assert_eq!(*rejected.handler(), 3);
    assert_eq!(
        rejected.as_slice(),
        &[
            Segment::Constant(String::from("c")),
            Segment::Named(String::from("d")),
        ]
    );
    assert_eq!(*router.as_slice()[0].handler(), 1);
    assert_eq!(*router.as_slice()[1].handler(), 2);
}

#[test]
fn find_prefers_the_first_inserted_match() {
    let router = greeting_router();
    let found = router.find("/greetings").unwrap();
    assert_eq!(*found.handler(), 2);
}

#[test]
fn find_walks_all_components() {
    let router = greeting_router();
    let found = router.find("/greetings/hi").unwrap();
    assert_eq!(*found.handler(), 4);
}

#[test]
fn every_route_matches_the_root_needle() {
    let router = greeting_router();
    let found = router.find("/").unwrap();
    assert_eq!(*found.handler(), 1);
}

#[test]
fn find_returns_none_when_nothing_matches() {
    let router = greeting_router();
    assert!(router.find("a/b/c/d/e").is_none());
}

#[test]
fn filter_yields_every_match_in_insertion_order() {
    let router = greeting_router();
    let matches: Vec<i32> = router.filter("/greetings").iter().map(|r| *r.handler()).collect();
    assert_eq!(matches, vec![2, 3, 4]);
    assert!(router.filter("a/b/c/d/e").is_empty());
}

#[test]
fn filter_agrees_with_repeated_find() {
    let router = greeting_router();
    let matches = router.filter("/greetings");
    let first = router.find("/greetings").unwrap();
    assert_eq!(*matches[0].handler(), *first.handler());
    // Excluding the first match by hand, the rest follow in insertion order.
    let mut rest = Router::<i32, 50, 4>::new();
    rest.add_route(Route::new("/", 1).unwrap()).unwrap();
    rest.add_route(Route::new("greetings", 3).unwrap()).unwrap();
    rest.add_route(Route::new(":greeting/hi", 4).unwrap()).unwrap();
    let second = rest.find("/greetings").unwrap();
    assert_eq!(*matches[1].handler(), *second.handler());
}
