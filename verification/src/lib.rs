//! Simplicity values in a compact bit representation.
//!
//! Simplicity processes data in terms of values: inputs, intermediate results and outputs. A value
//! is a unit, a left or right value of a sum, or a pair. [`ValueCompact`] stores it in as few bits
//! as its type allows, [`ValueRef`] looks at a value or at a part of it without copying.
//!
//! - [`types`]: the types of values.
//! - [`model`] and [`storage`]: values, their encodings and their buffers as mathematical objects.
//! - [`bits`], [`bit_iter`], [`traversal`] and [`reading`]: bits of byte buffers and streams, and
//!   how encodings are walked.
//! - [`value_compact`], [`prune`], [`decode`] and [`display`]: what can be done with values.
//! - [`laws`]: what holds of all of it together.
//! - [`type_laws`], [`value_laws`], [`stream_laws`], [`prune_laws`] and [`text_laws`]: how the results
//!   of calls relate to each other.
pub mod bit_iter;
pub mod bits;
pub mod decode;
pub mod display;
pub mod laws;
pub mod model;
pub mod prune;
pub mod prune_laws;
pub mod reading;
pub mod storage;
pub mod stream_laws;
pub mod text_laws;
pub mod traversal;
pub mod type_laws;
pub mod types;
pub mod value_compact;
pub mod value_laws;

pub use bit_iter::{BitIter, EarlyEndOfStreamError};
pub use types::{CompleteBound, Final};
pub use value_compact::{ValueCompact, ValueRef};
