//! Laws of the codec, proved against its specification: the decoded phase is
//! the clamped weighted material count, and the bishop-pair id is emitted
//! exactly once for a side with more than one bishop and never otherwise.

use vstd::prelude::*;
use crate::bits::{has, count, lemma_empty_has_none, lemma_count_below_empty, lemma_insert,
    lemma_insert_count};
use crate::board::{ScanState, scan_rec, scan_spec, scan_step, init_state};
use crate::codec::{parse_spec, find_sep, find_space};
use crate::features::{side_active, feats_from, lemma_feats_from_bounded};
use crate::offsets::Offset;

verus! {

/// The material count of a board, weighted knight 1, bishop 1, rook 2,
/// queen 4; pawns and kings count nothing.
pub open spec fn weighted_count(bb: Seq<u64>) -> nat {
    count(bb[1]) + count(bb[2]) + 2 * count(bb[3]) + 4 * count(bb[4]) + count(bb[7]) + count(bb[8])
        + 2 * count(bb[9]) + 4 * count(bb[10])
}

/// Every piece a scan has placed lies strictly before its cursor.
pub open spec fn region_ok(st: ScanState) -> bool {
    forall|k: int, j: int|
        0 <= k < 12 && has(st.bb[k], j) ==> j / 8 > st.row || (j / 8 == st.row && j % 8 < st.col)
}

/// Along a scan, the phase counter moves exactly with the weighted material
/// count of the placed pieces.
proof fn lemma_scan_phase_rec(b: Seq<u8>, i: int, st: ScanState)
    requires
        st.bb.len() == 12,
        0 <= st.row <= 7,
        0 <= st.col <= 8,
        region_ok(st),
        scan_rec(b, i, st) is Ok,
    ensures
        ({
            let r = scan_rec(b, i, st)->Ok_0;
            r.bb.len() == 12 && r.phase - st.phase == weighted_count(r.bb) - weighted_count(st.bb)
        }),
    decreases b.len() - i,
{
    if i < 0 || i >= b.len() {
    } else {
        let c = b[i];
        let st2 = scan_step(c, st)->Ok_0;
        if c == 47 {
        } else if 49 <= c && c <= 56 {
        } else {
            let sq = 8 * st.row + st.col;
            let kind = crate::board::spec_piece_kind(c);
            let idx = 6 * crate::board::spec_piece_side(c) + kind;
            assert(sq / 8 == st.row && sq % 8 == st.col) by (nonlinear_arith)
                requires
                    0 <= st.row <= 7 && 0 <= st.col <= 7 && sq == 8 * st.row + st.col,
            ;
            assert(!(has(st.bb[idx], sq)));
            lemma_insert_count(st.bb[idx], sq as u64);
            assert forall|k: int, j: int| 0 <= k < 12 && has(st2.bb[k], j) implies j / 8 > st2.row
                || (j / 8 == st2.row && j % 8 < st2.col) by {
                if k == idx {
                    lemma_insert(st.bb[idx], sq as u64, j);
                }
            }
            assert(st2.phase - st.phase == weighted_count(st2.bb) - weighted_count(st.bb));
        }
        lemma_scan_phase_rec(b, i + 1, st2);
    }
}

/// The phase counter a scan yields is the weighted material count of the
/// board it yields.
pub proof fn lemma_scan_phase(board: Seq<u8>)
    requires
        scan_spec(board) is Ok,
    ensures
        ({
            let r = scan_spec(board)->Ok_0;
            r.bb.len() == 12 && r.phase == weighted_count(r.bb)
        }),
{
    let st0 = init_state();
    assert forall|k: int, j: int| 0 <= k < 12 && has(st0.bb[k], j) implies j / 8 > st0.row || (j / 8
        == st0.row && j % 8 < st0.col) by {
        lemma_empty_has_none(j);
    }
    lemma_count_below_empty(64);
    lemma_scan_phase_rec(board, 0, st0);
}

/// The board field of a record: the bytes before the first space, themselves
/// before the first score separator.
pub open spec fn spec_board_field(b: Seq<u8>) -> Seq<u8> {
    let fen = b.subrange(0, find_sep(b, 0)->Some_0);
    fen.subrange(0, find_space(fen, 0)->Some_0)
}

/// The board a successfully decoded record was scanned from.
pub open spec fn spec_scanned(b: Seq<u8>) -> ScanState {
    scan_spec(spec_board_field(b))->Ok_0
}

/// The decoded phase is the weighted material count of the scanned board,
/// clamped to 24: knights and bishops weigh 1, rooks 2, queens 4, pawns and
/// kings nothing.
pub proof fn lemma_phase_material(b: Seq<u8>)
    requires
        parse_spec(b) is Ok,
    ensures
        spec_scanned(b).phase == weighted_count(spec_scanned(b).bb),
        spec_scanned(b).bb.len() == 12,
        (parse_spec(b)->Ok_0).phase == if spec_scanned(b).phase > 24 {
            24int
        } else {
            spec_scanned(b).phase
        },
        (parse_spec(b)->Ok_0).white == side_active(spec_scanned(b).bb, 0),
        (parse_spec(b)->Ok_0).black == side_active(spec_scanned(b).bb, 1),
{
    lemma_scan_phase(spec_board_field(b));
}

/// Lone kings: a record whose scanned board holds nothing besides the king
/// sets decodes with phase 0.
pub proof fn lemma_lone_kings(b: Seq<u8>)
    requires
        parse_spec(b) is Ok,
        forall|k: int| 0 <= k < 12 && k != 5 && k != 11 ==> spec_scanned(b).bb[k] == 0u64,
    ensures
        (parse_spec(b)->Ok_0).phase == 0,
{
    lemma_phase_material(b);
    lemma_count_below_empty(64);
}

/// One of every non-king piece per side: each side holding exactly one
/// knight, one bishop, one rook and one queen decodes with the pre-clamp
/// phase counter 2 * (1 + 1 + 2 + 4) = 16.
pub proof fn lemma_single_set_phase(b: Seq<u8>)
    requires
        parse_spec(b) is Ok,
        count(spec_scanned(b).bb[1]) == 1,
        count(spec_scanned(b).bb[2]) == 1,
        count(spec_scanned(b).bb[3]) == 1,
        count(spec_scanned(b).bb[4]) == 1,
        count(spec_scanned(b).bb[7]) == 1,
        count(spec_scanned(b).bb[8]) == 1,
        count(spec_scanned(b).bb[9]) == 1,
        count(spec_scanned(b).bb[10]) == 1,
    ensures
        spec_scanned(b).phase == 16,
        (parse_spec(b)->Ok_0).phase == 16,
{
    lemma_phase_material(b);
}

/// How often `x` occurs in `s`.
pub open spec fn occurrences(s: Seq<u16>, x: u16) -> int
    decreases s.len(),
{
    if s.len() == 0 {
        0
    } else {
        occurrences(s.drop_last(), x) + if s.last() == x {
            1int
        } else {
            0int
        }
    }
}

/// Occurrences split over concatenation.
pub proof fn lemma_occ_concat(a: Seq<u16>, b: Seq<u16>, x: u16)
    ensures
        occurrences(a + b, x) == occurrences(a, x) + occurrences(b, x),
    decreases b.len(),
{
    if b.len() == 0 {
        assert(a + b =~= a);
    } else {
        assert((a + b).drop_last() =~= a + b.drop_last());
        lemma_occ_concat(a, b.drop_last(), x);
    }
}

/// A value absent from every position occurs zero times.
pub proof fn lemma_occ_none(s: Seq<u16>, x: u16)
    requires
        forall|j: int| 0 <= j < s.len() ==> s[j] != x,
    ensures
        occurrences(s, x) == 0,
    decreases s.len(),
{
    if s.len() > 0 {
        lemma_occ_none(s.drop_last(), x);
    }
}

/// A side with more than one bishop emits the bishop-pair id exactly once;
/// a side with at most one bishop never emits it.
pub proof fn lemma_bishop_pair(bb: Seq<u64>, side: int)
    requires
        bb.len() == 12,
        0 <= side < 2,
    ensures
        occurrences(side_active(bb, side), Offset::BISHOP_PAIR) == if count(bb[6 * side + 2]) > 1 {
            1int
        } else {
            0int
        },
{
    lemma_feats_from_bounded(bb, side, 0, 0);
    let rest = feats_from(bb, side, 0, 0);
    lemma_occ_none(rest, Offset::BISHOP_PAIR);
    if count(bb[6 * side + 2]) > 1 {
        let pair = seq![Offset::BISHOP_PAIR];
        lemma_occ_concat(pair, rest, Offset::BISHOP_PAIR);
        assert(pair.drop_last() =~= Seq::<u16>::empty());
        assert(occurrences(Seq::<u16>::empty(), Offset::BISHOP_PAIR) == 0);
        assert(pair.last() == Offset::BISHOP_PAIR);
        assert(occurrences(pair, Offset::BISHOP_PAIR) == occurrences(
            pair.drop_last(),
            Offset::BISHOP_PAIR,
        ) + 1);
    } else {
        lemma_occ_concat(Seq::<u16>::empty(), rest, Offset::BISHOP_PAIR);
    }
}

/// The bishop-pair law carried to a decoded record, for either side.
pub proof fn lemma_bishop_pair_decoded(b: Seq<u8>)
    requires
        parse_spec(b) is Ok,
    ensures
        occurrences((parse_spec(b)->Ok_0).white, Offset::BISHOP_PAIR) == if count(
            spec_scanned(b).bb[2],
        ) > 1 {
            1int
        } else {
            0int
        },
        occurrences((parse_spec(b)->Ok_0).black, Offset::BISHOP_PAIR) == if count(
            spec_scanned(b).bb[8],
        ) > 1 {
            1int
        } else {
            0int
        },
{
    lemma_phase_material(b);
    lemma_bishop_pair(spec_scanned(b).bb, 0);
    lemma_bishop_pair(spec_scanned(b).bb, 1);
}

} // verus!
