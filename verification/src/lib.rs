//! Structured diffs of log streams: JSON-lines or logfmt records, aligned by
//! key fields (or by a fingerprint of the whole record), reported as records
//! only on the left, only on the right, or modified.
pub mod diff;
pub mod error;
pub mod keys;
pub mod output;
pub mod parser;
pub mod record;
pub mod text;

pub use diff::{diff_streams, DiffChange};
pub use error::RustydiffError;
pub use record::{FieldMap, FloatValue, Record, Value};
