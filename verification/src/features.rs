//! Emitting the active feature ids of one side from a scanned board: a
//! piece-square id for every piece, pawn-structure and file-openness ids,
//! mobility ids, and the bishop-pair id.

use vstd::prelude::*;
use crate::bits::{has, count, first};
use crate::attacks::{
    spec_knight_mob, spec_bishop_mob, spec_rook_mob, spec_queen_mob, knight_mobility,
    bishop_mobility, rook_mobility, queen_mobility,
};
use crate::offsets::Offset;

verus! {

/// Squares occupied by one side.
pub open spec fn side_occ(bb: Seq<u64>, side: int) -> u64 {
    bb[6 * side] | bb[6 * side + 1] | bb[6 * side + 2] | bb[6 * side + 3] | bb[6 * side + 4] | bb[6
        * side + 5]
}

/// Squares occupied by either side.
pub open spec fn occ_all(bb: Seq<u64>) -> u64 {
    side_occ(bb, 0) | side_occ(bb, 1)
}

/// The pawns of the side to whom `side`'s pieces are hostile.
pub open spec fn enemy_pawns(bb: Seq<u64>, side: int) -> u64 {
    bb[6 * (1 - side)]
}

/// A side's own pawns.
pub open spec fn own_pawns(bb: Seq<u64>, side: int) -> u64 {
    bb[6 * side]
}

/// The side's king square: the least square of its king set, 64 if none.
pub open spec fn king_sq(bb: Seq<u64>, side: int) -> nat {
    first(bb[6 * side + 5])
}

/// Whether the side's squares are mirrored file-wise: the king stands on the
/// right half of the board (file above 3).
pub open spec fn spec_hflip(bb: Seq<u64>, side: int) -> bool {
    king_sq(bb, side) % 8 > 3
}

/// A square after optional vertical (rank) and horizontal (file) mirroring.
pub open spec fn msq(sq: int, vflip: bool, hflip: bool) -> int {
    let r = sq / 8;
    let f = sq % 8;
    8 * (if vflip {
        7 - r
    } else {
        r
    }) + (if hflip {
        7 - f
    } else {
        f
    })
}

/// Some pawn of `p` stands on file `f`.
pub open spec fn pawn_on_file(p: u64, f: int) -> bool {
    exists|t: int| 0 <= t < 64 && has(p, t) && t % 8 == f
}

/// A pawn on `sq` has no friendly pawn on an adjacent file.
pub open spec fn spec_isolated(own: u64, sq: int) -> bool {
    let f = sq % 8;
    !(f > 0 && pawn_on_file(own, f - 1)) && !(f < 7 && pawn_on_file(own, f + 1))
}

/// Square `t` lies in the forward span of a pawn of `side` on `sq`: strictly
/// ahead of it, on its file or an adjacent one.
pub open spec fn in_span(side: int, sq: int, t: int) -> bool {
    let r = sq / 8;
    let f = sq % 8;
    let tr = t / 8;
    let tf = t % 8;
    (if side == 0 {
        tr > r
    } else {
        tr < r
    }) && f - 1 <= tf <= f + 1
}

/// Some enemy pawn stands in the forward span of a pawn of `side` on `sq`.
pub open spec fn span_blocked(ep: u64, side: int, sq: int) -> bool {
    exists|t: int| 0 <= t < 64 && has(ep, t) && in_span(side, sq, t)
}

/// The feature ids one piece emits: its piece-square id, then its
/// family-specific ids in a fixed order.
pub open spec fn sq_feats(bb: Seq<u64>, side: int, kind: int, sq: int) -> Seq<u16> {
    let fsq = msq(sq, side == 0, spec_hflip(bb, side));
    let mf = fsq % 8;
    let base = seq![(Offset::PST + 64 * kind + fsq) as u16];
    if kind == 0 {
        let iso: Seq<u16> = if spec_isolated(own_pawns(bb, side), sq) {
            seq![(Offset::ISOLATED + mf) as u16]
        } else {
            Seq::empty()
        };
        let pass: Seq<u16> = if !span_blocked(enemy_pawns(bb, side), side, sq) {
            seq![(Offset::PASSED + fsq) as u16]
        } else {
            Seq::empty()
        };
        base + iso + pass
    } else if kind == 1 {
        base + seq![
            (Offset::KNIGHT_MOBILITY + spec_knight_mob(enemy_pawns(bb, side), side, sq)) as u16,
        ]
    } else if kind == 2 {
        base + seq![
            (Offset::BISHOP_MOBILITY + spec_bishop_mob(
                occ_all(bb),
                enemy_pawns(bb, side),
                side,
                sq,
            )) as u16,
        ]
    } else if kind == 3 {
        let f = sq % 8;
        let semi: Seq<u16> = if !pawn_on_file(own_pawns(bb, side), f) {
            seq![(Offset::SEMI_OPEN + mf) as u16]
        } else {
            Seq::empty()
        };
        let full: Seq<u16> = if !pawn_on_file(own_pawns(bb, side), f) && !pawn_on_file(
            enemy_pawns(bb, side),
            f,
        ) {
            seq![(Offset::FULL_OPEN + mf) as u16]
        } else {
            Seq::empty()
        };
        base + semi + full + seq![
            (Offset::ROOK_MOBILITY + spec_rook_mob(occ_all(bb), enemy_pawns(bb, side), side, sq)) as u16,
        ]
    } else if kind == 4 {
        base + seq![
            (Offset::QUEEN_MOBILITY + spec_queen_mob(
                occ_all(bb),
                enemy_pawns(bb, side),
                side,
                sq,
            )) as u16,
        ]
    } else {
        base
    }
}

/// The feature ids emitted from piece kind `kind`, square `sq` onward:
/// kinds in ordinal order, squares ascending within a kind.
pub open spec fn feats_from(bb: Seq<u64>, side: int, kind: int, sq: int) -> Seq<u16>
    decreases 6 - kind, 64 - sq,
{
    if kind < 0 || kind >= 6 || sq < 0 {
        Seq::empty()
    } else if sq >= 64 {
        feats_from(bb, side, kind + 1, 0)
    } else if has(bb[6 * side + kind], sq) {
        sq_feats(bb, side, kind, sq) + feats_from(bb, side, kind, sq + 1)
    } else {
        feats_from(bb, side, kind, sq + 1)
    }
}

/// All active feature ids of one side: the bishop-pair id when the side has
/// more than one bishop, then every piece's ids.
pub open spec fn side_active(bb: Seq<u64>, side: int) -> Seq<u16> {
    (if count(bb[6 * side + 2]) > 1 {
        seq![Offset::BISHOP_PAIR]
    } else {
        Seq::empty()
    }) + feats_from(bb, side, 0, 0)
}

/// Decides whether some pawn of `p` stands on file `f`.
fn pawn_on_file_exec(p: u64, f: u8) -> (r: bool)
    requires
        f < 8,
    ensures
        r == pawn_on_file(p, f as int),
{
    let mut rr: u8 = 0;
    while rr < 8
        invariant
            rr <= 8,
            f < 8,
            forall|t: int| 0 <= t < 64 && t % 8 == f && t / 8 < rr ==> !(has(p, t)),
        decreases 8 - rr,
    {
        let t = 8 * rr + f;
        proof {
            assert((8 * (rr as int) + f) % 8 == f && (8 * (rr as int) + f) / 8 == rr as int) by (nonlinear_arith)
                requires
                    f < 8 && rr < 8,
            ;
        }
        if crate::bits::bb_has(p, t) {
            return true;
        }
        proof {
            assert forall|t2: int| 0 <= t2 < 64 && t2 % 8 == f && t2 / 8 < rr + 1 implies !(has(
                p,
                t2,
            )) by {
                if t2 / 8 == rr as int {
                    assert(t2 == 8 * (t2 / 8) + t2 % 8);
                }
            }
        }
        rr = rr + 1;
    }
    proof {
        assert forall|t2: int| 0 <= t2 < 64 && has(p, t2) implies t2 % 8 != f by {
            assert(t2 / 8 < 8);
        }
    }
    false
}

/// Decides whether some enemy pawn stands in the forward span of `sq`.
fn span_blocked_exec(ep: u64, side: u8, sq: u8) -> (r: bool)
    requires
        side < 2,
        sq < 64,
    ensures
        r == span_blocked(ep, side as int, sq as int),
{
    let r0 = sq / 8;
    let f0 = sq % 8;
    let mut t: u8 = 0;
    while t < 64
        invariant
            t <= 64,
            side < 2,
            sq < 64,
            r0 == sq / 8,
            f0 == sq % 8,
            forall|t2: int|
                0 <= t2 < t ==> !(has(ep, t2) && in_span(side as int, sq as int, t2)),
        decreases 64 - t,
    {
        let tr = t / 8;
        let tf = t % 8;
        let ahead = if side == 0 {
            tr > r0
        } else {
            tr < r0
        };
        let near_file = tf + 1 >= f0 && tf <= f0 + 1;
        if ahead && near_file && crate::bits::bb_has(ep, t) {
            return true;
        }
        t = t + 1;
    }
    false
}

/// Mirrors a square vertically and/or horizontally.
fn mirror_square(sq: u8, vflip: bool, hflip: bool) -> (r: u8)
    requires
        sq < 64,
    ensures
        r == msq(sq as int, vflip, hflip),
        r < 64,
{
    let r0 = sq / 8;
    let f0 = sq % 8;
    let mr = if vflip {
        7 - r0
    } else {
        r0
    };
    let mf = if hflip {
        7 - f0
    } else {
        f0
    };
    8 * mr + mf
}

/// Appends the feature ids one piece emits.
fn push_square_feats(
    v: &mut Vec<u16>,
    Ghost(bb): Ghost<Seq<u64>>,
    side: u8,
    kind: u8,
    sq: u8,
    occ: u64,
    ep: u64,
    own: u64,
    hflip: bool,
)
    requires
        side < 2,
        kind < 6,
        sq < 64,
        bb.len() == 12,
        occ == occ_all(bb),
        ep == enemy_pawns(bb, side as int),
        own == own_pawns(bb, side as int),
        hflip == spec_hflip(bb, side as int),
    ensures
        final(v)@ == old(v)@ + sq_feats(bb, side as int, kind as int, sq as int),
{
    let fsq = mirror_square(sq, side == 0, hflip);
    let mf = fsq % 8;
    let f0 = sq % 8;
    v.push(Offset::PST + 64 * kind as u16 + fsq as u16);
    if kind == 0 {
        let adj_low = f0 > 0 && pawn_on_file_exec(own, f0 - 1);
        let adj_high = f0 < 7 && pawn_on_file_exec(own, f0 + 1);
        if !adj_low && !adj_high {
            v.push(Offset::ISOLATED + mf as u16);
        }
        if !span_blocked_exec(ep, side, sq) {
            v.push(Offset::PASSED + fsq as u16);
        }
    } else if kind == 1 {
        let n = knight_mobility(ep, side, sq);
        v.push(Offset::KNIGHT_MOBILITY + n as u16);
    } else if kind == 2 {
        let n = bishop_mobility(occ, ep, side, sq);
        v.push(Offset::BISHOP_MOBILITY + n as u16);
    } else if kind == 3 {
        let own_free = !pawn_on_file_exec(own, f0);
        if own_free {
            v.push(Offset::SEMI_OPEN + mf as u16);
        }
        if own_free && !pawn_on_file_exec(ep, f0) {
            v.push(Offset::FULL_OPEN + mf as u16);
        }
        let n = rook_mobility(occ, ep, side, sq);
        v.push(Offset::ROOK_MOBILITY + n as u16);
    } else if kind == 4 {
        let n = queen_mobility(occ, ep, side, sq);
        v.push(Offset::QUEEN_MOBILITY + n as u16);
    }
    proof {
        assert(v@ =~= old(v)@ + sq_feats(bb, side as int, kind as int, sq as int));
    }
}

/// Collects every active feature id of one side, in emission order.
pub fn side_features(bd: &crate::board::Board, side: u8) -> (v: Vec<u16>)
    requires
        bd.wf(),
        side < 2,
    ensures
        v@ == side_active(bd.bb@, side as int),
{
    let ghost bb = bd.bb@;
    let mut v: Vec<u16> = Vec::new();
    let bishops = bd.at(side, 2);
    if crate::bits::bb_count(bishops) > 1 {
        v.push(Offset::BISHOP_PAIR);
    }
    let ghost prefix = v@;
    proof {
        assert(side_active(bb, side as int) == prefix + feats_from(bb, side as int, 0, 0));
    }

    let occ = bd.at(0, 0) | bd.at(0, 1) | bd.at(0, 2) | bd.at(0, 3) | bd.at(0, 4) | bd.at(0, 5) | (
    bd.at(1, 0) | bd.at(1, 1) | bd.at(1, 2) | bd.at(1, 3) | bd.at(1, 4) | bd.at(1, 5));
    proof {
        assert(occ == occ_all(bb));
    }
    let ep = bd.at(1 - side, 0);
    let own = bd.at(side, 0);
    let king = bd.at(side, 5);
    let ksq = crate::bits::bb_first(king);
    let hflip = ksq % 8 > 3;

    let mut kind: u8 = 0;
    while kind < 6
        invariant
            bd.wf(),
            side < 2,
            kind <= 6,
            bb == bd.bb@,
            occ == occ_all(bb),
            ep == enemy_pawns(bb, side as int),
            own == own_pawns(bb, side as int),
            hflip == spec_hflip(bb, side as int),
            side_active(bb, side as int) == v@ + feats_from(bb, side as int, kind as int, 0),
        decreases 6 - kind,
    {
        let pieces = bd.at(side, kind);
        let mut sq: u8 = 0;
        while sq < 64
            invariant
                bd.wf(),
                side < 2,
                kind < 6,
                sq <= 64,
                bb == bd.bb@,
                occ == occ_all(bb),
                ep == enemy_pawns(bb, side as int),
                own == own_pawns(bb, side as int),
                hflip == spec_hflip(bb, side as int),
                pieces == bb[6 * side as int + kind as int],
                side_active(bb, side as int) == v@ + feats_from(
                    bb,
                    side as int,
                    kind as int,
                    sq as int,
                ),
            decreases 64 - sq,
        {
            if crate::bits::bb_has(pieces, sq) {
                push_square_feats(&mut v, Ghost(bb), side, kind, sq, occ, ep, own, hflip);
            }
            sq = sq + 1;
        }
        proof {
            assert(feats_from(bb, side as int, kind as int, 64) == feats_from(
                bb,
                side as int,
                kind as int + 1,
                0,
            ));
        }
        kind = kind + 1;
    }
    proof {
        assert(feats_from(bb, side as int, 6, 0) =~= Seq::<u16>::empty());
        assert(v@ =~= v@ + Seq::<u16>::empty());
    }
    v
}


/// A mirrored square stays on the board.
pub proof fn lemma_msq_bounds(sq: int, vflip: bool, hflip: bool)
    requires
        0 <= sq < 64,
    ensures
        0 <= msq(sq, vflip, hflip) < 64,
        0 <= msq(sq, vflip, hflip) % 8 <= 7,
{
}

/// Every id a piece emits lies below the bishop-pair id.
pub proof fn lemma_sq_feats_bounded(bb: Seq<u64>, side: int, kind: int, sq: int)
    requires
        bb.len() == 12,
        0 <= side < 2,
        0 <= kind < 6,
        0 <= sq < 64,
    ensures
        forall|j: int|
            0 <= j < sq_feats(bb, side, kind, sq).len() ==> sq_feats(bb, side, kind, sq)[j]
                < Offset::BISHOP_PAIR,
{
    lemma_msq_bounds(sq, side == 0, spec_hflip(bb, side));
    if kind == 1 {
        crate::attacks::lemma_knight_mob_le(enemy_pawns(bb, side), side, sq);
    } else if kind == 2 {
        crate::attacks::lemma_bishop_mob_le(occ_all(bb), enemy_pawns(bb, side), side, sq);
    } else if kind == 3 {
        crate::attacks::lemma_rook_mob_le(occ_all(bb), enemy_pawns(bb, side), side, sq);
    } else if kind == 4 {
        crate::attacks::lemma_queen_mob_le(occ_all(bb), enemy_pawns(bb, side), side, sq);
    }
}

/// Every id the piece loop emits lies below the bishop-pair id.
pub proof fn lemma_feats_from_bounded(bb: Seq<u64>, side: int, kind: int, sq: int)
    requires
        bb.len() == 12,
        0 <= side < 2,
    ensures
        forall|j: int|
            0 <= j < feats_from(bb, side, kind, sq).len() ==> feats_from(bb, side, kind, sq)[j]
                < Offset::BISHOP_PAIR,
    decreases 6 - kind, 64 - sq,
{
    if kind < 0 || kind >= 6 || sq < 0 {
        assert(feats_from(bb, side, kind, sq) == Seq::<u16>::empty());
    } else if sq >= 64 {
        lemma_feats_from_bounded(bb, side, kind + 1, 0);
        assert(feats_from(bb, side, kind, sq) == feats_from(bb, side, kind + 1, 0));
    } else {
        lemma_feats_from_bounded(bb, side, kind, sq + 1);
        if !(has(bb[6 * side + kind], sq)) {
            assert(feats_from(bb, side, kind, sq) == feats_from(bb, side, kind, sq + 1));
        }
        if has(bb[6 * side + kind], sq) {
            lemma_sq_feats_bounded(bb, side, kind, sq);
            let head = sq_feats(bb, side, kind, sq);
            let tail = feats_from(bb, side, kind, sq + 1);
            assert forall|j: int|
                0 <= j < feats_from(bb, side, kind, sq).len() implies feats_from(
                bb,
                side,
                kind,
                sq,
            )[j] < Offset::BISHOP_PAIR by {
                assert(feats_from(bb, side, kind, sq) == head + tail);
                if j < head.len() {
                    assert((head + tail)[j] == head[j]);
                } else {
                    assert((head + tail)[j] == tail[j - head.len()]);
                }
            }
        }
    }
}

/// Every active id of a side lies below the number of features, and only the
/// leading bishop-pair id ever equals the bishop-pair id.
pub proof fn lemma_side_active_bounded(bb: Seq<u64>, side: int)
    requires
        bb.len() == 12,
        0 <= side < 2,
    ensures
        forall|j: int|
            0 <= j < side_active(bb, side).len() ==> side_active(bb, side)[j]
                < crate::offsets::NUM_PARAMS,
{
    lemma_feats_from_bounded(bb, side, 0, 0);
}

} // verus!
