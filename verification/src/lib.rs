//! Core logic for a motion-JPEG restreamer: a byte-level parser that
//! recovers JPEG frame boundaries from an unframed stream, a latest-value
//! frame distributor with per-subscriber cursors, the multipart wire
//! encoding of a frame, and the pacing rule for a fixed-rate file loop.
pub mod distributor;
pub mod grammar;
pub mod multipart;
pub mod pacing;
pub mod parser;
