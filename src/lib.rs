//! Brute-force matching of binary feature descriptors with Lowe's ratio test,
//! and the integer decisions of a random-sample-consensus verifier.
pub mod descriptor;
pub mod matching;
pub mod consensus;
pub mod color;
