//! Succinct data structures over bit vectors: an Elias-Fano encoding of sorted
//! integer sequences and a balanced-parentheses tree with a min-max tree.
pub use bit_vec::BitVec;
pub use elias_fano::EliasFanoVec;
pub use rs_vec::RsVec;
pub use trees::bp::{BpDfsBuilder, BpTree};

pub mod bit_vec;
pub mod bits;
pub mod elias_fano;
pub mod rs_vec;
pub mod trees;
