//! base32768: packs bytes into UTF-16 code units drawn from a fixed alphabet
//! of 32768 code points, 15 bits to a code unit.
pub mod alphabet;
pub mod alternative;
pub mod codec;
pub mod laws;
pub mod optimized;
pub mod pipes;
pub mod pipeline;
