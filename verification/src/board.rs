//! Scanning the board field of a record: piece letters fill per-colour,
//! per-kind square sets, rank by rank from the top, while a material phase
//! counter accumulates.

use vstd::prelude::*;
use crate::codec::FormatError;

verus! {

/// The cursor and accumulated state of a board scan: twelve square sets
/// (indexed `6 * side + kind`), the material phase counter, and the rank and
/// file the scan stands on.
pub ghost struct ScanState {
    /// Square sets, one per side and kind: entry `6 * side + kind`.
    pub bb: Seq<u64>,
    /// Material phase counter: pieces weighted pawn 0, knight 1, bishop 1,
    /// rook 2, queen 4, king 0.
    pub phase: int,
    /// Rank the scan stands on, from 7 down to 0.
    pub row: int,
    /// File the next piece would land on, 0 to 8.
    pub col: int,
}

/// Side encoded by a piece letter: upper case is White, lower case Black.
pub open spec fn spec_piece_side(c: u8) -> int {
    if 97 <= c {
        1
    } else {
        0
    }
}

/// Kind encoded by a piece letter.
pub open spec fn spec_piece_kind(c: u8) -> int {
    let l = if 97 <= c {
        (c - 32) as u8
    } else {
        c
    };
    if l == 80 {
        0
    } else if l == 78 {
        1
    } else if l == 66 {
        2
    } else if l == 82 {
        3
    } else if l == 81 {
        4
    } else {
        5
    }
}

/// The twelve recognized piece letters: `PNBRQK` and `pnbrqk`.
pub open spec fn spec_is_piece(c: u8) -> bool {
    let l = if 97 <= c {
        (c - 32) as u8
    } else {
        c
    };
    l == 80 || l == 78 || l == 66 || l == 82 || l == 81 || l == 75
}

/// Phase weight of a piece kind: pawn and king count nothing.
pub open spec fn spec_phase_weight(kind: int) -> int {
    if kind == 1 || kind == 2 {
        1
    } else if kind == 3 {
        2
    } else if kind == 4 {
        4
    } else {
        0
    }
}

/// The state a scan starts from: empty board, top rank, first file.
pub open spec fn init_state() -> ScanState {
    ScanState { bb: Seq::new(12, |i| 0u64), phase: 0, row: 7, col: 0 }
}

/// One scanned character: `/` steps to the next rank down, a digit skips that
/// many empty files, a piece letter lands on the current square.
pub open spec fn scan_step(c: u8, st: ScanState) -> Result<ScanState, FormatError> {
    if c == 47 {
        if st.row == 0 {
            Err(FormatError::BadBoard)
        } else {
            Ok(ScanState { bb: st.bb, phase: st.phase, row: st.row - 1, col: 0 })
        }
    } else if 49 <= c && c <= 56 {
        if st.col + (c - 48) > 8 {
            Err(FormatError::BadBoard)
        } else {
            Ok(ScanState { bb: st.bb, phase: st.phase, row: st.row, col: st.col + (c - 48) })
        }
    } else if spec_is_piece(c) {
        if st.col > 7 {
            Err(FormatError::BadBoard)
        } else {
            let sq = 8 * st.row + st.col;
            let idx = 6 * spec_piece_side(c) + spec_piece_kind(c);
            Ok(
                ScanState {
                    bb: st.bb.update(idx, st.bb[idx] | (1u64 << (sq as u64))),
                    phase: st.phase + spec_phase_weight(spec_piece_kind(c)),
                    row: st.row,
                    col: st.col + 1,
                },
            )
        }
    } else {
        Err(FormatError::UnrecognizedChar)
    }
}

/// The scan from position `i` onward, started in state `st`.
pub open spec fn scan_rec(b: Seq<u8>, i: int, st: ScanState) -> Result<ScanState, FormatError>
    decreases b.len() - i,
{
    if i < 0 || i >= b.len() {
        Ok(st)
    } else {
        match scan_step(b[i], st) {
            Ok(st2) => scan_rec(b, i + 1, st2),
            Err(e) => Err(e),
        }
    }
}

/// What scanning a whole board field yields.
pub open spec fn scan_spec(b: Seq<u8>) -> Result<ScanState, FormatError> {
    scan_rec(b, 0, init_state())
}

/// A scanned board: the square sets and the phase counter.
pub struct Board {
    /// Square sets, one per side and kind: entry `6 * side + kind`.
    pub bb: Vec<u64>,
    /// Material phase counter, before clamping.
    pub phase: u32,
}

impl Board {
    /// The square sets hold twelve entries and the phase is in bounds.
    pub open spec fn wf(self) -> bool {
        self.bb@.len() == 12 && self.phase <= 256
    }

    /// The square set of one side and kind.
    pub open spec fn spec_at(self, side: int, kind: int) -> u64 {
        self.bb@[6 * side + kind]
    }

    /// Reads the square set of one side and kind.
    pub fn at(&self, side: u8, kind: u8) -> (r: u64)
        requires
            self.wf(),
            side < 2,
            kind < 6,
        ensures
            r == self.spec_at(side as int, kind as int),
    {
        self.bb[6 * side as usize + kind as usize]
    }
}

/// Side encoded by a piece letter.
fn piece_side(c: u8) -> (r: u8)
    ensures
        r == spec_piece_side(c),
{
    if c >= 97 {
        1
    } else {
        0
    }
}

/// Kind encoded by a piece letter.
fn piece_kind(c: u8) -> (r: u8)
    ensures
        r == spec_piece_kind(c),
{
    let l = if c >= 97 {
        c - 32
    } else {
        c
    };
    if l == 80 {
        0
    } else if l == 78 {
        1
    } else if l == 66 {
        2
    } else if l == 82 {
        3
    } else if l == 81 {
        4
    } else {
        5
    }
}

/// Whether a byte is one of the twelve piece letters.
fn is_piece(c: u8) -> (r: bool)
    ensures
        r == spec_is_piece(c),
{
    let l = if c >= 97 {
        c - 32
    } else {
        c
    };
    l == 80 || l == 78 || l == 66 || l == 82 || l == 81 || l == 75
}

/// Phase weight of a piece kind.
fn phase_weight(kind: u8) -> (r: u8)
    requires
        kind < 6,
    ensures
        r == spec_phase_weight(kind as int),
{
    if kind == 1 || kind == 2 {
        1
    } else if kind == 3 {
        2
    } else if kind == 4 {
        4
    } else {
        0
    }
}

/// Scans a board field into the per-side, per-kind square sets and the
/// material phase counter.
pub fn scan_board(b: &[u8]) -> (r: Result<Board, FormatError>)
    ensures
        r matches Ok(bd) ==> bd.wf() && (scan_spec(b@) matches Ok(st) && st.bb == bd.bb@
            && st.phase == bd.phase),
        r matches Err(e) ==> scan_spec(b@) == Err::<ScanState, FormatError>(e),
{
    let mut bbv: Vec<u64> = Vec::new();
    let mut k: usize = 0;
    while k < 12
        invariant
            bbv@.len() == k,
            k <= 12,
            forall|j: int| 0 <= j < k ==> bbv@[j] == 0u64,
        decreases 12 - k,
    {
        bbv.push(0u64);
        k = k + 1;
    }
    let mut phase: u32 = 0;
    let mut row: u8 = 7;
    let mut col: u8 = 0;
    proof {
        assert(bbv@ =~= init_state().bb);
    }

    let mut i: usize = 0;
    while i < b.len()
        invariant
            i <= b@.len(),
            bbv@.len() == 12,
            row <= 7,
            col <= 8,
            phase <= 4 * (8 * (7 - row as int) + col as int),
            scan_spec(b@) == scan_rec(
                b@,
                i as int,
                ScanState { bb: bbv@, phase: phase as int, row: row as int, col: col as int },
            ),
        decreases b@.len() - i,
    {
        let ghost st = ScanState {
            bb: bbv@,
            phase: phase as int,
            row: row as int,
            col: col as int,
        };
        let c = b[i];
        if c == 47 {
            if row == 0 {
                return Err(FormatError::BadBoard);
            }
            row = row - 1;
            col = 0;
        } else if 49 <= c && c <= 56 {
            let d = c - 48;
            if col + d > 8 {
                return Err(FormatError::BadBoard);
            }
            col = col + d;
        } else if is_piece(c) {
            if col > 7 {
                return Err(FormatError::BadBoard);
            }
            let side = piece_side(c);
            let kind = piece_kind(c);
            let sq = 8 * row + col;
            let idx: usize = 6 * side as usize + kind as usize;
            let v = crate::bits::bb_insert(bbv[idx], sq);
            bbv.set(idx, v);
            phase = phase + phase_weight(kind) as u32;
            col = col + 1;
            proof {
                let st2 = scan_step(c, st)->Ok_0;
                assert(bbv@ =~= st2.bb);
            }
        } else {
            return Err(FormatError::UnrecognizedChar);
        }
        i = i + 1;
    }
    Ok(Board { bb: bbv, phase })
}

} // verus!
