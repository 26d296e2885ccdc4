//! In-place radix-2 fast Fourier transform on square grids of complex
//! amplitudes, with the index permutations and row partitioning around it.
//!
//! The crate holds the integer side of the transform: which cells are
//! permuted, which pairs meet in a butterfly, in which pass the result is
//! normalised, and how the rows of a grid are dealt out to workers and put
//! back. The arithmetic on the amplitudes themselves is supplied by the caller
//! as a butterfly function, so every statement here holds for any number type.

pub mod complex;
pub mod config;
pub mod layout;
pub mod power_of_two;
pub mod transpose;
pub mod bit_reversal;
pub mod fft;
pub mod rows;
pub mod partition;
pub mod grid;
