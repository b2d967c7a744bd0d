//! Trims a multiple-sequence alignment to one consensus open reading frame.

pub mod args;
pub mod fasta;
pub mod fasta_text;
pub mod mode;
pub mod orf;
