//! Verified page-structure operations for PDF documents: rotation, reordering, merging and
//! splitting over an in-memory object graph, the redaction step order, the raster ceiling,
//! and the limits every operation is held to.

pub mod error;
pub mod limits;
pub mod rotation;
pub mod permutation;
pub mod graph;
pub mod names;
pub mod inherit;
pub mod engine;
pub mod rotate;
pub mod flatten;
pub mod reorder;
pub mod assemble;
pub mod redact;
pub mod raster;
pub mod codes;
pub mod digest;
pub mod differential;
pub mod narrow;
pub mod extract;
pub mod compress;
pub mod sharing;
pub mod decimal;
pub mod contents_rule;
pub mod scope;
pub mod surgery;
pub mod page_content;
