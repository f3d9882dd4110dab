//! The record decoder: turns one dataset record into a `DataPoint` holding
//! each side's active feature ids, the clamped material phase, and the
//! training target as an exact fraction, stated from White's perspective.

use vstd::prelude::*;
use vstd::string::StringSliceAdditionalSpecFns;
use crate::board::{scan_spec, ScanState};
use crate::features::{side_active, side_features};
use crate::target::score_spec;

verus! {

/// Why a record was rejected.
#[derive(Clone, Copy, Debug, PartialEq, Eq, Structural)]
pub enum FormatError {
    /// A character of the board field is not a piece letter, digit or `/`.
    UnrecognizedChar,
    /// The board field walks off the board: too many ranks, or an overfull rank.
    BadBoard,
    /// No side-to-move token follows the board field.
    MissingSideToMove,
    /// The record has no score separator, or the score field is not a plain
    /// decimal numeral within this library's precision.
    BadScore,
}

/// The phase counter is clamped here before normalization.
pub const PHASE_CAP: u32 = 24;

/// What one decoded record holds, in mathematical form.
pub ghost struct SpecPoint {
    /// White's active feature ids, in emission order.
    pub white: Seq<u16>,
    /// Black's active feature ids, in emission order.
    pub black: Seq<u16>,
    /// Clamped material phase counter, 0 to 24.
    pub phase: int,
    /// Training target numerator, from White's perspective.
    pub num: int,
    /// Training target denominator: a positive power of ten.
    pub den: int,
}

/// Least index at or above `i` where the score separator `" ce "` begins.
pub open spec fn find_sep(b: Seq<u8>, i: int) -> Option<int>
    decreases b.len() - i,
{
    if i < 0 || i + 4 > b.len() {
        None
    } else if b[i] == 32 && b[i + 1] == 99 && b[i + 2] == 101 && b[i + 3] == 32 {
        Some(i)
    } else {
        find_sep(b, i + 1)
    }
}

/// Least index at or above `i` holding a space.
pub open spec fn find_space(b: Seq<u8>, i: int) -> Option<int>
    decreases b.len() - i,
{
    if i < 0 || i >= b.len() {
        None
    } else if b[i] == 32 {
        Some(i)
    } else {
        find_space(b, i + 1)
    }
}

/// What a whole record decodes to: the board field runs to the first space,
/// the byte after that space is the side to move (`b` for Black), and the
/// bytes after the first `" ce "` are the score. A Black-to-move target is
/// flipped to White's perspective.
pub open spec fn parse_spec(b: Seq<u8>) -> Result<SpecPoint, FormatError> {
    match find_sep(b, 0) {
        None => Err(FormatError::BadScore),
        Some(sep) => {
            let fen = b.subrange(0, sep);
            let score = b.subrange(sep + 4, b.len() as int);
            match find_space(fen, 0) {
                None => Err(FormatError::MissingSideToMove),
                Some(sp) => {
                    if sp + 1 >= fen.len() {
                        Err(FormatError::MissingSideToMove)
                    } else {
                        let board = fen.subrange(0, sp);
                        let stm_black = fen[sp + 1] == 98;
                        match scan_spec(board) {
                            Err(e) => Err(e),
                            Ok(st) => match score_spec(score) {
                                None => Err(FormatError::BadScore),
                                Some((n, d)) => Ok(
                                    SpecPoint {
                                        white: side_active(st.bb, 0),
                                        black: side_active(st.bb, 1),
                                        phase: if st.phase > PHASE_CAP {
                                            PHASE_CAP as int
                                        } else {
                                            st.phase
                                        },
                                        num: if stm_black {
                                            d - n
                                        } else {
                                            n
                                        },
                                        den: d,
                                    },
                                ),
                            },
                        }
                    }
                }
            }
        },
    }
}

/// One decoded training example: each side's active feature ids, the clamped
/// material phase (normalized phase is `phase / 24`), and the training
/// target `result_num / result_den`, always from White's perspective.
pub struct DataPoint {
    /// White's active feature ids, in emission order.
    pub active_white: Vec<u16>,
    /// Black's active feature ids, in emission order.
    pub active_black: Vec<u16>,
    /// Clamped material phase counter, 0 to 24.
    pub phase: u32,
    /// Training target numerator; negative only when a target above one was
    /// flipped for Black to move.
    pub result_num: i64,
    /// Training target denominator: a positive power of ten.
    pub result_den: u64,
}

impl View for DataPoint {
    type V = SpecPoint;

    open spec fn view(&self) -> SpecPoint {
        SpecPoint {
            white: self.active_white@,
            black: self.active_black@,
            phase: self.phase as int,
            num: self.result_num as int,
            den: self.result_den as int,
        }
    }
}

impl DataPoint {
    /// Every id addresses a feature, the phase is clamped, and the target
    /// denominator is positive.
    pub open spec fn wf(self) -> bool {
        &&& forall|j: int|
            0 <= j < self.active_white@.len() ==> self.active_white@[j]
                < crate::offsets::NUM_PARAMS
        &&& forall|j: int|
            0 <= j < self.active_black@.len() ==> self.active_black@[j]
                < crate::offsets::NUM_PARAMS
        &&& self.phase <= PHASE_CAP
        &&& 1 <= self.result_den
    }

    /// Decodes one dataset record.
    pub fn parse(s: &str) -> (r: Result<DataPoint, FormatError>)
        ensures
            r matches Ok(dp) ==> (parse_spec(s.spec_bytes()) matches Ok(sp) && dp@ == sp
                && dp.wf()),
            r matches Err(e) ==> parse_spec(s.spec_bytes()) == Err::<SpecPoint, FormatError>(e),
    {
        let b = s.as_bytes();
        let ghost bs = b@;

        // Find the score separator.
        let mut sep: usize = 0;
        let mut found = false;
        while !found && b.len() - sep >= 4
            invariant
                bs == b@,
                sep <= bs.len(),
                found ==> sep + 4 <= bs.len() && find_sep(bs, 0) == Some(sep as int),
                !found ==> find_sep(bs, 0) == find_sep(bs, sep as int),
            decreases bs.len() - sep + (if found { 0int } else { 1int }),
        {
            if b[sep] == 32 && b[sep + 1] == 99 && b[sep + 2] == 101 && b[sep + 3] == 32 {
                found = true;
            } else {
                sep = sep + 1;
            }
        }
        if !found {
            return Err(FormatError::BadScore);
        }

        let blen = b.len();
        proof {
            assert(sep + 4 <= blen);
        }
        let fen = vstd::slice::slice_subrange(b, 0, sep);
        let score = vstd::slice::slice_subrange(b, sep + 4, blen);

        // Find the end of the board field.
        let mut sp: usize = 0;
        let mut sp_found = false;
        while !sp_found && sp < fen.len()
            invariant
                sep as int <= bs.len(),
                fen@ == bs.subrange(0, sep as int),
                sp <= fen@.len(),
                sp_found ==> sp < fen@.len() && find_space(fen@, 0) == Some(sp as int),
                !sp_found ==> find_space(fen@, 0) == find_space(fen@, sp as int),
            decreases fen@.len() - sp + (if sp_found { 0int } else { 1int }),
        {
            if fen[sp] == 32 {
                sp_found = true;
            } else {
                sp = sp + 1;
            }
        }
        if !sp_found {
            return Err(FormatError::MissingSideToMove);
        }
        if sp + 1 >= fen.len() {
            return Err(FormatError::MissingSideToMove);
        }
        let stm_black = fen[sp + 1] == 98;

        let board_field = vstd::slice::slice_subrange(fen, 0, sp);
        proof {
            assert(board_field@ =~= bs.subrange(0, sep as int).subrange(0, sp as int));
        }
        let bd = match crate::board::scan_board(board_field) {
            Ok(bd) => bd,
            Err(e) => {
                return Err(e);
            },
        };

        let (n, d) = match crate::target::parse_score(score) {
            Some(p) => p,
            None => {
                return Err(FormatError::BadScore);
            },
        };

        let white = side_features(&bd, 0);
        let black = side_features(&bd, 1);
        proof {
            crate::features::lemma_side_active_bounded(bd.bb@, 0);
            crate::features::lemma_side_active_bounded(bd.bb@, 1);
        }

        let phase = if bd.phase > PHASE_CAP {
            PHASE_CAP
        } else {
            bd.phase
        };

        let num: i64 = if stm_black {
            d as i64 - n as i64
        } else {
            n as i64
        };

        Ok(
            DataPoint {
                active_white: white,
                active_black: black,
                phase,
                result_num: num,
                result_den: d,
            },
        )
    }
}

} // verus!
