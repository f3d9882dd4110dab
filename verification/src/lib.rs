//! Feature codec and training-data model for a tapered, texel-tuned chess
//! evaluation. The codec decodes a board record into the active evaluation
//! features of each side, a material phase, and a training target; the
//! numerical optimiser that consumes these lives outside the library.

pub mod attacks;
pub mod bits;
pub mod board;
pub mod codec;
pub mod features;
pub mod laws;
pub mod offsets;
pub mod symmetry;
pub mod target;
