//! Haplotype-specific k-mer discovery and read binning over 2-bit packed DNA.
pub mod nucleotide;
pub mod kmer2bit;
pub mod windows;
pub mod discovery;
pub mod binning;
