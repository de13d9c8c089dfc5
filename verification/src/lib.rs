//! Locates degenerate nucleotide motifs in sequence records.
//!
//! A motif is a string over the alphabet `{A, T, C, G, N}`, where `N`
//! stands for any single symbol. Each motif is scanned against every
//! record on both strands: the forward strand uses the motif itself as
//! the pattern, the reverse strand uses its reverse complement, matched
//! against the same forward-oriented sequence text. Matches are reported
//! as zero-based half-open intervals together with the literal matched
//! text, and rendered as tab-separated lines.

pub mod motif;
pub mod scan;
pub mod emit;
