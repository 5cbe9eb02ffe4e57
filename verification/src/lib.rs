//! Thumbnail selection logic of a video-thumbnail lister plugin: its
//! configuration, its thumbnail cache, frame statistics, the natural order of
//! ZIP image sequences and the planning of decode attempts.
use vstd::prelude::*;

pub mod cache;
pub mod entry_name;
pub mod frame;
pub mod image_decode;
pub mod natural;
pub mod natural_order;
pub mod packets;
pub mod plan;
pub mod settings;
pub mod text;
pub mod thumb;
pub mod zip_sequence;

verus! {
} // verus!
