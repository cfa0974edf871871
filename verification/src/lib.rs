//! Selective subtitle translation core.
//!
//! The library parses timestamped subtitle documents, classifies the words
//! they contain against a persisted dictionary, gathers the text of entries
//! that still contain words the reader does not know into size-bounded
//! batches for an external translation service, and reassembles the
//! translated lines back onto the entries before serializing the result.
//! All text is handled as UTF-8 byte sequences.

use vstd::prelude::*;

pub mod dict;
pub mod pipeline;
pub mod subtitle;
pub mod text;
pub mod words;

verus! {

} // verus!
