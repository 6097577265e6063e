//! Recovery of media from Chromium-style on-disk HTTP caches: decoding of
//! Simple Cache entry files (including sparse entries), ISO-BMFF box walking,
//! and reconstruction of MP4 files split over blockfile chunks.

pub mod cache_dir;
pub mod entry;
pub mod io_policy;
pub mod mp4;
pub mod names;
pub mod reconstruct;
pub mod simple_cache;
pub mod sparse;
pub mod text;
pub mod wire;
