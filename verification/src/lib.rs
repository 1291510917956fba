//! A verified core for a food-catalog HTTP service.
//!
//! The crate holds the catalog data model, the ingestion pipeline, the
//! relevance ranker, the input sanitizer, the image-URL rewriter, the
//! response cache, the rate limiter and the per-endpoint request logic,
//! each with a machine-checked contract.  Process bootstrap, the HTTP
//! listener, the embedded database file and all other I/O live outside
//! this crate and hand plain values in and out.

pub mod cache;
pub mod error;
pub mod food;
pub mod handlers;
pub mod health;
pub mod limiter;
pub mod ranker;
pub mod rewrite;
pub mod sanitize;
pub mod seed;
pub mod slug;
pub mod store;
pub mod text;
