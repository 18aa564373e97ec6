//! Verified core of a handout-mirroring tool: a persisted manifest of
//! already-synced remote files, a planner that decides which remote entries
//! are stale, an executor step that folds fetch outcomes back into the
//! manifest, and a text codec for the manifest with a proved round trip.
pub mod codec;
pub mod config;
pub mod executor;
pub mod fetch;
pub mod manifest;
pub mod planner;
