//! wavemark: the verified core of an audio annotation tool.

pub mod report;
pub mod text;
pub mod time;
pub mod model;
pub mod silence;
pub mod dsp;
pub mod history;
pub mod window;
pub mod names;
pub mod keys;

pub use report::{MergeReport, Rejection};
