//! Structured decoding for a Chinese language-analysis pipeline: word segmentation from
//! BIO/BIOES labels, Viterbi backtraces for role labelling, Eisner's projective dependency
//! trees, and the assembly of one analysis record per sentence from a scoring engine's
//! padded batch tensors.
use vstd::prelude::*;

pub mod batch;
pub mod crf;
pub mod binding;
pub mod eisner;
pub mod entities;
pub mod interface;
pub mod packing;
pub mod tokenize;
pub mod viterbi;

pub use interface::{LTPError, LTPResult, Vocab, DEP, SDP};

verus! {

} // verus!
