//! A text-mining engine over pre-tokenized, feature-annotated corpora.
//!
//! A corpus is a table of morpheme rows, each carrying [`COLS`] string
//! features (surface form, part of speech, and so on).  The engine
//! dictionary-encodes every feature into a compact integer ID per column,
//! stores the body as columnar arrays of IDs together with a sentence
//! boundary index, compiles regular-expression-like queries over feature
//! patterns into bytecode, and runs that bytecode over the columnar body to
//! enumerate matching morpheme spans sentence by sentence.
//!
//! The crate holds the computational core: the file formats, the dictionary
//! encoding, the query parser and bytecode compiler, and the matching
//! machine.  Reading and writing the actual files is left to the caller,
//! who hands byte buffers in and takes byte buffers out.

#![verifier::loop_isolation(false)]

use vstd::prelude::*;

pub mod compiler;
pub mod feature_map;
pub mod features_file;
pub mod index;
pub mod indexer;
pub mod sentence_index_file;
pub mod util;
pub mod vm;
pub mod workspace;

verus! {

/// Number of feature columns per corpus row.
pub const COLS: usize = 10;

/// Integer encoding of one feature string within one column.
/// IDs are assigned in first-appearance order during indexing, starting at 0.
pub type FeatId = u32;

/// Greatest column-0 feature ID that closes a sentence.  Column 0 reserves
/// IDs `0..=MAX_DELIMITER_ID` for the sentence-delimiter strings.
pub const MAX_DELIMITER_ID: u32 = 12;

/// A malformed on-disk buffer: one of the index files does not follow its
/// declared format.
#[derive(Clone, Copy, Debug, PartialEq, Eq, Structural)]
pub enum FormatError {
    /// The buffer ends before its header or declared contents do.
    Truncated,
    /// The declared lengths do not add up to the size of the buffer.
    LengthMismatch,
}

} // verus!
