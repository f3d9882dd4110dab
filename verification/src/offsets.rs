//! The feature-id layout: every evaluation term occupies one contiguous,
//! non-overlapping range of ids, assigned by this fixed offset table.

use vstd::prelude::*;

verus! {

/// Base ids of each feature family, in declaration order.
pub struct Offset;

impl Offset {
    /// Piece-square tables: 6 kinds x 64 squares.
    pub const PST: u16 = 0;
    /// Rook on a file with no friendly pawn, by file.
    pub const SEMI_OPEN: u16 = 384;
    /// Rook on a file with no pawn of either colour, by file.
    pub const FULL_OPEN: u16 = 392;
    /// Pawn with no friendly pawn on an adjacent file, by file.
    pub const ISOLATED: u16 = 400;
    /// Pawn with no enemy pawn in its forward span, by square.
    pub const PASSED: u16 = 408;
    /// Knight mobility counts 0..=8.
    pub const KNIGHT_MOBILITY: u16 = 472;
    /// Bishop mobility counts 0..=13.
    pub const BISHOP_MOBILITY: u16 = 481;
    /// Rook mobility counts 0..=14.
    pub const ROOK_MOBILITY: u16 = 495;
    /// Queen mobility counts 0..=27.
    pub const QUEEN_MOBILITY: u16 = 510;
    /// One id for owning more than one bishop.
    pub const BISHOP_PAIR: u16 = 538;
}

/// Total number of feature ids; every emitted id is below this.
pub const NUM_PARAMS: usize = 539;

} // verus!
