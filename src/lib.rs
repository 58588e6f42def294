//! Sandboxed directory browsing and a shared chat log for a local file-sharing
//! service.
//!
//! - [`path`]: validation of client-supplied relative paths against the shared root.
//! - [`order`]: the code-point order on names.
//! - [`listing`]: ordering and classification of directory listings.
//! - [`navigation`]: the client-side navigation state machine with stale-response
//!   filtering.
//! - [`chat`]: the append-only chat log, its recent window and its stored form.

pub mod chat;
pub mod listing;
pub mod navigation;
pub mod order;
pub mod path;
