//! A zero-allocation-style path router with fixed capacities.
//!
//! A [`router::Router`] holds at most `CAP` routes, each a [`route::Route`]
//! of at most `SEG_CAP` parsed pattern segments plus an opaque handler
//! value.  Incoming paths are matched component by component against the
//! registered patterns, first structural match winning, with insertion
//! order breaking ties.

pub mod path;
pub mod route;
pub mod router;
pub mod segment;

pub use route::Route;
pub use route::RouteError;
pub use router::Router;
pub use segment::Segment;
