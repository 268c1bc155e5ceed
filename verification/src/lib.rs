//! Detection of moved blocks of code between two revisions of a source tree.
//!
//! A move is a contiguous run of lines deleted in one place and re-added in
//! another, verbatim or with only variable names changed.  The crate offers:
//!
//! - [`scope`]: a nested symbol table assigning renaming-independent aliases
//!   to identifiers, indexed by lexical nesting depth;
//! - [`tokenize`]: a lossless lexer splitting source text into identifier,
//!   punctuation and string-literal tokens;
//! - [`keys`]: canonical keys for block content, either whitespace-collapsed
//!   or additionally normalized through the symbol table so that renamed
//!   variables compare equal;
//! - [`extract`]: a state machine reducing a unified-diff line stream to
//!   contiguous addition/deletion blocks keyed by their canonical content;
//! - [`moves`]: the matcher pairing addition and deletion blocks with equal
//!   keys into move records, with net line accounting per commit pair.
//!
//! Obtaining diffs from a repository, the command line and the HTTP front end
//! are thin adapters kept outside this crate; they feed the extractor plain
//! diff lines and serialize the results.

pub mod extract;
pub mod moves;
pub mod keys;
pub mod scope;
pub mod text;
pub mod tokenize;
