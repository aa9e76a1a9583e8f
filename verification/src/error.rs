//! The library's errors.
use vstd::prelude::*;

use crate::text::push_text;
use vstd::std_specs::convert::FromSpecImpl;

verus! {

#[verifier::external_type_specification]
#[verifier::external_body]
pub struct ExIoError(std::io::Error);

/// What went wrong: a line that does not parse, a failure to read or write,
/// or an argument that is not accepted.
#[derive(Debug)]
pub enum RustydiffError {
    Parse(String),
    Io(std::io::Error),
    Argument(String),
}

/// The text that `std::io::Error`'s `Display` writes. What it writes comes
/// from the operating system and is not stated here.
#[verifier::external_body]
fn io_error_text(e: &std::io::Error) -> String {
    e.to_string()
}

impl RustydiffError {
    /// The message of the error: `parse error: ` or `argument error: ` before
    /// the detail, and an I/O error's own text.
    pub fn message(&self) -> (r: String)
        ensures
            self matches RustydiffError::Parse(m) ==> r@ == "parse error: "@ + m@,
            self matches RustydiffError::Argument(m) ==> r@ == "argument error: "@ + m@,
    {
        match self {
            RustydiffError::Parse(m) => {
                let mut r = String::new();
                push_text(&mut r, "parse error: ");
                push_text(&mut r, m.as_str());
                r
            },
            RustydiffError::Io(e) => io_error_text(e),
            RustydiffError::Argument(m) => {
                let mut r = String::new();
                push_text(&mut r, "argument error: ");
                push_text(&mut r, m.as_str());
                r
            },
        }
    }
}


impl From<std::io::Error> for RustydiffError {
    fn from(e: std::io::Error) -> (r: RustydiffError) {
        RustydiffError::Io(e)
    }
}

impl FromSpecImpl<std::io::Error> for RustydiffError {
    open spec fn obeys_from_spec() -> bool {
        true
    }

    open spec fn from_spec(v: std::io::Error) -> RustydiffError {
        RustydiffError::Io(v)
    }
}

} // verus!
