//! Consolidation of BigTIFF files.
//!
//! A BigTIFF file that was written slice by slice has its image file
//! directories (IFDs) scattered among the image data, so that listing them
//! takes one seek per plane. This crate decides whether the IFDs of a file
//! already stand at its end, and plans the rewritten file in which they do.
//!
//! The crate performs no input or output. Readers work on the byte ranges that
//! were handed to them and name the range they miss; writers produce a list of
//! actions (bytes to append, source ranges to copy, words to patch).
//!
//! What the modules hold, from the bottom up: `bytes`, `text` and `error` are
//! the basics; `entry`, `offsets` and `reader` read the structure of a file;
//! `consolidated` checks it; `source` surveys it, with the help of `metadata`
//! and `ome`; `order`, `writer` and `process` plan the output; `arguments` and
//! `outputs` are the rules of the command line. The other modules state and
//! prove what holds of all of this together: `partial` of reading parts of a
//! file, `crossings` of the check, `pages` of the survey, `layout`, `readback`,
//! `recheck`, `rewrite`, `again` and `packing` of the output, `json` of the exported
//! metadata, `views` of the mathematical contents.
pub mod again;
pub mod arguments;
pub mod bytes;
pub mod consolidated;
pub mod crossings;
pub mod entry;
pub mod error;
pub mod json;
pub mod layout;
pub mod metadata;
pub mod offsets;
pub mod ome;
pub mod order;
pub mod outputs;
pub mod packing;
pub mod pages;
pub mod partial;
pub mod process;
pub mod readback;
pub mod reader;
pub mod recheck;
pub mod rewrite;
pub mod source;
pub mod text;
pub mod views;
pub mod writer;
