//! Nucleotide sequences and the short-read operations built on them:
//! barcode trimming within a mismatch budget, pileup consensus calling, and
//! joining of paired-end reads at their overlap.

pub mod bases;
pub mod consensus;
pub mod debarcode;
pub mod error;
pub mod fastq;
pub mod find;
pub mod hetsep;
pub mod join;
pub mod matrix;
pub mod oligos;
pub mod text;
