//! The layers below the path operations: the on-medium encoding of values,
//! objects, and blocks.

pub mod blocks;
pub mod bytes;
pub mod objects;
pub mod writer;
