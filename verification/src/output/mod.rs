//! What the differences are written as: JSON lines, or unified-style text.
pub mod jsonl;
pub mod unified;

pub use jsonl::{JsonItem, JsonlFormatter, RecordPart};
pub use unified::UnifiedFormatter;

use vstd::prelude::*;

use crate::error::RustydiffError;
use crate::keys::{compare_text, KeyOrder};
use crate::record::text_of;
use crate::text::push_text;

verus! {

/// The output formats.
#[derive(Debug, Clone, Copy, PartialEq, Eq, Structural)]
pub enum OutputFormat {
    Jsonl,
    SideBySide,
    Unified,
}

/// The format that a name stands for.
pub open spec fn format_named(name: Seq<char>) -> Option<OutputFormat> {
    if name == "jsonl"@ {
        Some(OutputFormat::Jsonl)
    } else if name == "side-by-side"@ {
        Some(OutputFormat::SideBySide)
    } else if name == "unified"@ {
        Some(OutputFormat::Unified)
    } else {
        None
    }
}

/// The error for a name that stands for no format.
pub open spec fn unknown_format_message(name: Seq<char>) -> Seq<char> {
    "unknown format '"@ + name + "'; expected jsonl, side-by-side, or unified"@
}

fn same_text(a: &str, b: &str) -> (r: bool)
    ensures
        r == (a@ == b@),
{
    match compare_text(a, b) {
        KeyOrder::Same => true,
        _ => false,
    }
}

impl OutputFormat {
    /// The format named `jsonl`, `side-by-side` or `unified`; any other name
    /// is an argument error.
    pub fn parse(s: &str) -> (r: Result<Self, RustydiffError>)
        ensures
            match r {
                Ok(f) => format_named(s@) == Some(f),
                Err(e) => {
                    &&& format_named(s@) is None
                    &&& e matches RustydiffError::Argument(m) && m@ == unknown_format_message(s@)
                },
            },
    {
        if same_text(s, "jsonl") {
            Ok(OutputFormat::Jsonl)
        } else if same_text(s, "side-by-side") {
            Ok(OutputFormat::SideBySide)
        } else if same_text(s, "unified") {
            Ok(OutputFormat::Unified)
        } else {
            let mut m = text_of("unknown format '");
            push_text(&mut m, s);
            push_text(&mut m, "'; expected jsonl, side-by-side, or unified");
            Err(RustydiffError::Argument(m))
        }
    }
}

} // verus!
