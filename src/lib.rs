//! Bao-style tree encoding: a streaming post-order build that is flipped into
//! a pre-order encoding that can be verified from the top down. In memory the
//! flip rewrites the same buffer, subtree by subtree; over a seekable stream it
//! is planned step by step by `FlipperState`.
pub mod bits;
pub mod hash;
pub mod stack;
pub mod encode;
pub mod walk;
pub mod shape;
