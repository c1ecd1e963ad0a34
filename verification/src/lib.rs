//! A path-scoped rewrite engine for an HTTP reverse proxy.
//!
//! For each request the engine chooses an upstream, rewrites method, headers,
//! query and body by the rules of the request's path, and says what goes
//! upstream; for the answer it does the same on the way back. Sending and
//! receiving is left to the caller.
//!
//! - [`config`]: settings and rules.
//! - [`text`], [`assoc`], [`json`]: strings, ordered maps, JSON trees.
//! - [`flat`], [`roundtrip`]: nested JSON to and from flat maps, and the proof
//!   that the two are inverse.
//! - [`query`]: query strings to and from maps.
//! - [`transform`]: the transformation pipeline.
//! - [`headers`], [`rules`]: header maps and the rule engine.
//! - [`body`], [`egress`]: bodies and the headers that describe them.
//! - [`dispatch`], [`pipeline`]: routing, and the request and response
//!   pipelines.

pub mod assoc;
pub mod body;
pub mod config;
pub mod dispatch;
pub mod egress;
pub mod flat;
pub mod headers;
pub mod json;
pub mod pipeline;
pub mod query;
pub mod roundtrip;
pub mod rules;
pub mod text;
pub mod transform;
