//! A verified core for a Markdown sync agent.
//!
//! The crate holds the logic of a long-running agent that keeps a directory of
//! Markdown files in sync with a remote content store (cloud mode) or serves it
//! over a local HTTP file service (vault mode): the line-level diff codec, the
//! content fingerprint, the scanner's ordering rules, the sync engine's state
//! and decisions, the push-channel framing, and the file service's auth and
//! path-confinement rules.  I/O — HTTP, the filesystem, the event loop — lives
//! outside, in thin drivers that call into this crate with plain values.

pub mod strutil;
pub mod fingerprint;
pub mod diff;
pub mod types;
pub mod scanner;
pub mod json;
pub mod strmap;
pub mod transport;
pub mod config;
pub mod engine;
pub mod sse;
pub mod service;
pub mod callback;
