//! Path routing for web applications: route patterns, URL path splitting,
//! route selection and the navigation state that drives them.
pub mod text;
pub mod path;
pub mod split;
pub mod params;
pub mod parse;
pub mod specificity;
pub mod route;
pub mod resolve;
pub mod pathname;
pub mod link;
pub mod runner;

pub use params::RouteParams;
pub use parse::{PathMatchError, RouteParseResult};
pub use path::{PathSegment, PathSegmentError, RouterPath};
pub use pathname::Pathname;
pub use resolve::{resolve_routes, MatchedRoute, RouteNode, RouteTree, RouteUpdate};
pub use route::Route;
pub use runner::{runner_action, MicrotaskTrigger, PluginsPhase, RunnerAction};
pub use split::TrackedSplit;
