//! Summaries of free-text status reports: normalizing report text,
//! extracting bug references, and rendering a per-author digest.

pub mod text;
pub mod scan;
pub mod bugs;
pub mod normalize;
pub mod order;
pub mod digest;
pub mod laws;
pub mod command;
