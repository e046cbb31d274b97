//! Ingest, deduplicate and relay bookmarks of a public feed.
//!
//! `pin` holds the item model and the text it turns into, `store` the table
//! that serves as a durable queue, and `pipeline` the decisions of the two
//! scheduled operations, pull and push.
pub mod pin;
pub mod store;
pub mod pipeline;
