//! Verified core of a vision pipeline for text recognition in images and video:
//! reading-order recovery for detected boxes, connected-component extraction,
//! greedy suppression, CTC collapsing, subtitle timing and serialization.
pub mod decimal;
pub mod types;
pub mod sorting;
pub mod xycut;
pub mod postprocess;
pub mod emit;
pub mod error;
pub mod components;
pub mod sampler;
pub mod temporal;
pub mod backends;

pub use emit::{to_plain, to_srt};
pub use error::{OcrError, Result, VisionError};
pub use sampler::KeyframeGate;
pub use temporal::SegmentMerger;
pub use types::{BBox, Mask, Segment, Timestamp};
