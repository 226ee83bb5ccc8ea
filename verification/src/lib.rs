//! Core of a player-statistics browser: a persistent key-value cache with
//! time-based expiration, and the decision logic of the API client that
//! wraps it. Time is measured in integer milliseconds since the epoch.
//!
//! The cache store keeps string keys mapped to structured documents, each
//! with an absolute deadline and an optional sliding window; expiration is
//! enforced lazily at read time. The codec renders the whole store as one
//! text document and reads exactly that rendering back, so a store
//! survives a restart unchanged. The service layer decides, per endpoint,
//! what to cache and for how long; the surrounding application only
//! carries out the requests it describes.
pub mod codec;
pub mod json;
pub mod service;
pub mod store;
pub mod text;
