use vstd::prelude::*;

verus! {

/// The typed failures the tokenizer reports to its caller.
///
/// None of them is retried internally, and no operation that fails leaves the
/// vocabulary table partially changed.
#[derive(Clone, Copy, Debug, PartialEq, Eq, Structural)]
pub enum TokenizerError {
    /// A training target that does not exceed the current vocabulary size.
    InvalidTrainingTarget,
    /// A corpus (or special-token literal) too small to yield the requested
    /// number of new merge entries.
    InsufficientCorpus,
    /// Decoded bytes that are not a valid UTF-8 encoding of any text.
    InvalidTextEncoding,
    /// A composite symbol code with no matching vocabulary entry.
    UnknownSymbol,
    /// A persisted vocabulary table that could not be read from its medium.
    VocabularyIoError,
    /// A persisted vocabulary table whose bytes do not form a well-formed
    /// table.
    VocabularyParseError,
}

} // verus!
