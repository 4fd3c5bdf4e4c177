//! Row patch engine: records, stacks and reverts edits to fixed-size binary rows.
//!
//! - `geometry`: how logical fields lie over the 32-bit words of a row.
//! - `model`: what a patch stack means, and the laws that every patcher obeys.
//! - `sparse_array` and `linked_list`: two patchers that follow the model exactly.
//! - `param_file`: the reader for parameter files, and `bytes` for their integers.
//! - `paramdef` and `paramdex`: row-type definitions, their layout, and their lowering
//!   to field blocks.
pub mod bits;
pub mod bytes;
pub mod geometry;
pub mod linked_list;
pub mod model;
pub mod param_file;
pub mod paramdef;
pub mod paramdex;
pub mod sparse_array;
