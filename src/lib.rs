//! Multi-resolution spectrogram tile cache: level-of-detail arithmetic,
//! a byte-budgeted LRU tile store, in-flight deduplication for the
//! cooperative scheduler, prefetch planning, and GUANO metadata handling.

pub mod chroma;
pub mod colormap;
pub mod guano;
pub mod in_flight;
pub mod lod;
pub mod prefetch;
pub mod render;
pub mod scheduler;
pub mod tile_store;
