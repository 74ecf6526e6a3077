//! Compact data structures: bit sequences, rank/select bit sets, RRR block
//! coding, and small shell-like lexers.

pub mod word;
pub mod rrr;
pub mod bit_set;
pub mod bits;
pub mod flagrc;
pub mod procfile;
pub mod faccess;
