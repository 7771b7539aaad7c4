//! Lints route configurations: nested arrays of route entries, as front-end
//! routers declare them.
pub mod syntax;
pub mod context;
pub mod diagnostic;
pub mod path;
pub mod routes;
pub mod handler;
pub mod rules;
pub mod snippet;
