//! Validation of zero-copy archives.
//!
//! An archive is a flat byte buffer that encodes a typed value with
//! self-relative references instead of pointers. Before such a buffer is
//! viewed as typed data, every offset, length, discriminant and nested
//! reference in it has to be shown sound. This crate does that walk, and
//! Verus proves what each step of it returns.
//!
//! - [`wire`], [`extent`] and [`span`] are the arithmetic: little-endian
//!   integers, self-relative offsets, bounds, alignment, byte ranges.
//! - [`shape`] describes the layout of the types that an archive may hold.
//! - [`claims`] tracks which byte ranges are being validated and which are
//!   done, and tells a cycle from an overlap.
//! - [`walk`] is the model: what validation answers, as a function of the
//!   archive. [`engine`] is the code that computes it, from a list of work
//!   that [`worklist`] gives its meaning to, and [`entry`] is the one call
//!   that most callers need.
//! - [`archive_view`] reads a validated archive without further checks, and
//!   [`encoding`] tells whether the bytes of a text are well-formed.
//! - [`written`] says what it means for an archive to hold a value, and
//!   [`accepted`] and [`laws`] prove that validation accepts exactly the
//!   archives that do.

pub mod error;
pub mod span;
pub mod wire;
pub mod extent;
pub mod encoding;
pub mod claims;
pub mod shape;
pub mod walk;
pub mod worklist;
pub mod engine;
pub mod archive_view;
pub mod entry;
pub mod written;
pub mod accepted;
pub mod laws;

pub use archive_view::ArchiveView;
pub use claims::{ArchiveContext, ClaimGuard};
pub use entry::validate;
pub use error::ValidationError;
pub use shape::{Field, Registry, Shape};
pub use span::Span;
