//! What holds of renderings, edits and plans as a whole.
pub mod entries;
pub mod locating;
pub mod numbers;
pub mod planning;
pub mod reading;
pub mod rendering;
pub mod reporting;
pub mod spelling;
pub mod splicing;
pub mod viewing;
