//! Request routing on a compressed tree of path patterns.
//!
//! A pattern is static text in which a path segment may be a wildcard (`:name`), which matches one
//! segment, and the last one a catch-all (`*name`), which matches the whole rest. [`Node`] is the
//! tree of patterns, [`Builder`] and [`Treemux`] are the router on top of it.

pub mod answer_laws;
pub mod builder;
pub mod builder_laws;
pub mod call_laws;
pub mod children;
pub mod count;
pub mod decode;
pub mod dump;
pub mod escape;
pub mod exact;
pub mod graft;
pub mod graft_laws;
pub mod history;
pub mod laws;
pub mod layered;
pub mod lookup;
pub mod method;
pub mod middleware;
pub mod model;
pub mod mount_laws;
pub mod mux;
pub mod mux_laws;
pub mod params;
pub mod pattern_laws;
pub mod register_laws;
pub mod routes;
pub mod segment_laws;
pub mod shape;
pub mod text;
pub mod tree;
pub mod value_laws;

pub use crate::builder::{Builder, GroupBuilder, RedirectBehavior, RouterBuilder};
pub use crate::method::{AllowedMethods, Method, MethodMap};
pub use crate::middleware::Middleware;
pub use crate::model::RouteError;
pub use crate::mux::{Action, Treemux};
pub use crate::params::{Param, Params};
pub use crate::tree::{Handler, HandlerConfig, Match, Node};
