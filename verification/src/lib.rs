//! Batching registry for scene objects that share a mesh.
//!
//! Objects are grouped by (world, mesh, colored) key; each group mirrors a
//! renderer-side instance buffer in a growable CPU staging buffer of
//! fixed-stride slots. Members are keyed by monotonically increasing ids,
//! which makes removal a binary search and keeps every member list sorted.
//! A per-tick packing pass culls members against a six-plane frustum and
//! compacts the visible ones to the front of the buffer.
//!
//! All renderer effects are returned as explicit command values; the caller
//! forwards them to the actual renderer.

pub mod frustum;
pub mod layout;
pub mod registry;
pub mod update;
