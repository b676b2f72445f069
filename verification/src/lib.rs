//! The history of a canvas of colored cells, edit by edit: a file that holds
//! for every cell the edits that were made of it, a store that reads the file
//! where it lies, a canvas that shows every cell as it was at a moment, and
//! queries for the moment of the n-th next or previous change.

pub mod api;
pub mod builder;
pub mod canvas;
pub mod changes;
pub mod codec;
pub mod data;
pub mod dataset;
pub mod display;
pub mod pixel;
pub mod rank;
pub mod reader;
pub mod search;
pub mod window;
