//! A request router for an HTTP-like server: percent-decoding, compiled route
//! patterns, a segment-matching dispatch tree and a fluent builder for it.
use vstd::prelude::*;

pub mod text;
pub mod escape;
pub mod request;
pub mod query;
pub mod response;
pub mod route;
pub mod service;
pub mod router;
pub mod builder;
pub mod laws;
