//! A byte-pair-encoding subword tokenizer engine.
//!
//! The engine learns a vocabulary of merge rules from a corpus, uses it to
//! turn text into sequences of integer symbol codes and back, forces literal
//! strings to have a dedicated code, and reads and writes the one persisted
//! table format.  A few small self-contained companions live in their own
//! modules: an offset-indexed in-memory log, search-query helpers, and
//! audio mixer node configuration.

pub mod codec;
pub mod error;
pub mod laws;
pub mod log;
pub mod merge;
pub mod nodes;
pub mod normalize;
pub mod persist;
pub mod search;
pub mod tokenizer;
pub mod trainer;
pub mod vocab;

pub use error::TokenizerError;
pub use normalize::DefaultNormalizer;
pub use normalize::Normalize;
pub use tokenizer::BPETokenizer;
pub use vocab::Vocab;
