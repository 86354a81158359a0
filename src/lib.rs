//! Pairwise comparison of byte sequences: Hamming and Levenshtein
//! distances, global (Needleman-Wunsch) and local (Smith-Waterman)
//! alignment, and a small FM-index over a text.
pub mod alignment;
pub mod fmindex;
pub mod hamming;
pub mod levenshtein;
pub mod needleman_wunsch;
pub mod smith_waterman;
