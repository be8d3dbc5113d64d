//! Automated market-maker engine for NFT pools priced on bonding curves.
pub mod fixed;
pub mod wide;
pub mod fees;
pub mod quote;
pub mod linear;
pub mod exponential;
pub mod error;
pub mod curve;
pub mod lp;
pub mod seqs;
pub mod pair;
pub mod staging;
pub mod contract;
pub mod swap;
pub mod laws;
