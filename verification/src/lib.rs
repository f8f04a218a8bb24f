//! Batch file renaming: rename rules applied to lists of file names, the
//! batches of renames carried out and their undo history, and the ordering
//! of directory listings and the drive list.
pub mod text;
pub mod casing;
pub mod pattern;
pub mod segments;
pub mod cycle_count;
pub mod renamer;
pub mod undo;
pub mod listing;
pub mod drives;
pub mod batch;
