//! Extraction of k-mers (fixed-length substrings) from a biological
//! sequence, together with the positions of their accepted occurrences.
//!
//! An occurrence of a k-mer is accepted only when it does not overlap the
//! most recently accepted occurrence of the same k-mer; the gap between two
//! consecutive accepted occurrences is recorded as a score. The scan is
//! repeated for every window length in a configured range.

pub mod extract;
pub mod range;
pub mod record;
pub mod table;
