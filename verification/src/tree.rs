//! The storage capability contract, the prove/verify protocol objects, the
//! commit batch model, and the digest primitive.

pub mod couple;
pub mod operation;
pub mod smt;
pub mod tree;
