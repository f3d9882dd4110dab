//! Mirror symmetries of the feature emission: a horizontally mirrored board
//! activates the same feature multiset per side, and a colour-swapped,
//! vertically mirrored board exchanges the two sides' feature multisets.

use vstd::prelude::*;
use crate::bits::{has, count, count_below, lemma_union, lemma_first_unique};
use crate::features::{pawn_on_file, in_span, span_blocked, sq_feats, feats_from, side_active,
    occ_all, enemy_pawns, own_pawns, spec_hflip, msq};
use crate::attacks::{spec_safe, spec_ray, spec_knight_mob, knight_step, spec_bishop_mob,
    spec_rook_mob, spec_queen_mob};
use crate::laws::{occurrences, lemma_occ_concat};

verus! {

/// A square with its file mirrored.
pub open spec fn hmirror(j: int) -> int {
    8 * (j / 8) + 7 - (j % 8)
}

/// A square with its rank mirrored.
pub open spec fn vmirror(j: int) -> int {
    8 * (7 - j / 8) + j % 8
}

/// `b` holds exactly the file-mirrored squares of `a`.
pub open spec fn hmirrored(a: u64, b: u64) -> bool {
    forall|j: int| 0 <= j < 64 ==> has(b, j) == has(a, hmirror(j))
}

/// `b` holds exactly the rank-mirrored squares of `a`.
pub open spec fn vmirrored(a: u64, b: u64) -> bool {
    forall|j: int| 0 <= j < 64 ==> has(b, j) == has(a, vmirror(j))
}

/// Coordinates of the file mirror.
pub proof fn lemma_hmirror_coords(j: int)
    requires
        0 <= j < 64,
    ensures
        0 <= hmirror(j) < 64,
        hmirror(j) / 8 == j / 8,
        hmirror(j) % 8 == 7 - j % 8,
        hmirror(hmirror(j)) == j,
{
    let r = j / 8;
    let f = j % 8;
    assert(j == 8 * r + f);
    assert(0 <= r < 8 && 0 <= f < 8);
    assert((8 * r + (7 - f)) / 8 == r && (8 * r + (7 - f)) % 8 == 7 - f) by (nonlinear_arith)
        requires
            0 <= r < 8 && 0 <= f < 8,
    ;
}

/// Coordinates of the rank mirror.
pub proof fn lemma_vmirror_coords(j: int)
    requires
        0 <= j < 64,
    ensures
        0 <= vmirror(j) < 64,
        vmirror(j) / 8 == 7 - j / 8,
        vmirror(j) % 8 == j % 8,
        vmirror(vmirror(j)) == j,
{
    let r = j / 8;
    let f = j % 8;
    assert(j == 8 * r + f);
    assert(0 <= r < 8 && 0 <= f < 8);
    assert((8 * (7 - r) + f) / 8 == 7 - r && (8 * (7 - r) + f) % 8 == f) by (nonlinear_arith)
        requires
            0 <= r < 8 && 0 <= f < 8,
    ;
}

/// Pieces of one rank, counted term by term.
spec fn rank_count(bb: u64, r: int) -> int {
    (if has(bb, 8 * r) {
        1int
    } else {
        0int
    }) + (if has(bb, 8 * r + 1) {
        1int
    } else {
        0int
    }) + (if has(bb, 8 * r + 2) {
        1int
    } else {
        0int
    }) + (if has(bb, 8 * r + 3) {
        1int
    } else {
        0int
    }) + (if has(bb, 8 * r + 4) {
        1int
    } else {
        0int
    }) + (if has(bb, 8 * r + 5) {
        1int
    } else {
        0int
    }) + (if has(bb, 8 * r + 6) {
        1int
    } else {
        0int
    }) + (if has(bb, 8 * r + 7) {
        1int
    } else {
        0int
    })
}

/// One rank extends the running square count by its own count.
proof fn lemma_count_below_rank(bb: u64, r: int)
    requires
        0 <= r < 8,
    ensures
        count_below(bb, (8 * r + 8) as nat) == count_below(bb, (8 * r) as nat) + rank_count(bb, r),
{
    let n = 8 * r;
    assert(count_below(bb, (n + 1) as nat) == count_below(bb, n as nat) + (if has(bb, n) {
        1int
    } else {
        0int
    }));
    assert(count_below(bb, (n + 2) as nat) == count_below(bb, (n + 1) as nat) + (if has(
        bb,
        n + 1,
    ) {
        1int
    } else {
        0int
    }));
    assert(count_below(bb, (n + 3) as nat) == count_below(bb, (n + 2) as nat) + (if has(
        bb,
        n + 2,
    ) {
        1int
    } else {
        0int
    }));
    assert(count_below(bb, (n + 4) as nat) == count_below(bb, (n + 3) as nat) + (if has(
        bb,
        n + 3,
    ) {
        1int
    } else {
        0int
    }));
    assert(count_below(bb, (n + 5) as nat) == count_below(bb, (n + 4) as nat) + (if has(
        bb,
        n + 4,
    ) {
        1int
    } else {
        0int
    }));
    assert(count_below(bb, (n + 6) as nat) == count_below(bb, (n + 5) as nat) + (if has(
        bb,
        n + 5,
    ) {
        1int
    } else {
        0int
    }));
    assert(count_below(bb, (n + 7) as nat) == count_below(bb, (n + 6) as nat) + (if has(
        bb,
        n + 6,
    ) {
        1int
    } else {
        0int
    }));
    assert(count_below(bb, (n + 8) as nat) == count_below(bb, (n + 7) as nat) + (if has(
        bb,
        n + 7,
    ) {
        1int
    } else {
        0int
    }));
}

/// The whole count is the sum of the eight rank counts.
proof fn lemma_count_ranks(bb: u64)
    ensures
        count(bb) == rank_count(bb, 0) + rank_count(bb, 1) + rank_count(bb, 2) + rank_count(bb, 3)
            + rank_count(bb, 4) + rank_count(bb, 5) + rank_count(bb, 6) + rank_count(bb, 7),
{
    lemma_count_below_rank(bb, 0);
    lemma_count_below_rank(bb, 1);
    lemma_count_below_rank(bb, 2);
    lemma_count_below_rank(bb, 3);
    lemma_count_below_rank(bb, 4);
    lemma_count_below_rank(bb, 5);
    lemma_count_below_rank(bb, 6);
    lemma_count_below_rank(bb, 7);
    assert(count_below(bb, 0) == 0);
}

/// A file mirror keeps the number of pieces.
pub proof fn lemma_count_hmirrored(a: u64, b: u64)
    requires
        hmirrored(a, b),
    ensures
        count(b) == count(a),
{
    assert forall|r: int| 0 <= r < 8 implies rank_count(b, r) == rank_count(a, r) by {
        lemma_hmirror_coords(8 * r);
        lemma_hmirror_coords(8 * r + 1);
        lemma_hmirror_coords(8 * r + 2);
        lemma_hmirror_coords(8 * r + 3);
        lemma_hmirror_coords(8 * r + 4);
        lemma_hmirror_coords(8 * r + 5);
        lemma_hmirror_coords(8 * r + 6);
        lemma_hmirror_coords(8 * r + 7);
    }
    lemma_count_ranks(a);
    lemma_count_ranks(b);
}

/// A rank mirror keeps the number of pieces.
pub proof fn lemma_count_vmirrored(a: u64, b: u64)
    requires
        vmirrored(a, b),
    ensures
        count(b) == count(a),
{
    assert forall|r: int| 0 <= r < 8 implies rank_count(b, r) == rank_count(a, 7 - r) by {
        lemma_vmirror_coords(8 * r);
        lemma_vmirror_coords(8 * r + 1);
        lemma_vmirror_coords(8 * r + 2);
        lemma_vmirror_coords(8 * r + 3);
        lemma_vmirror_coords(8 * r + 4);
        lemma_vmirror_coords(8 * r + 5);
        lemma_vmirror_coords(8 * r + 6);
        lemma_vmirror_coords(8 * r + 7);
    }
    lemma_count_ranks(a);
    lemma_count_ranks(b);
}


/// The whole board file-mirrored: every piece set of `b` mirrors its
/// counterpart of `a`.
pub open spec fn board_hmirrored(a: Seq<u64>, b: Seq<u64>) -> bool {
    a.len() == 12 && b.len() == 12 && forall|k: int| 0 <= k < 12 ==> hmirrored(a[k], b[k])
}

/// Splitting a square into rank and file.
proof fn lemma_divmod(r: int, f: int)
    requires
        0 <= r < 8,
        0 <= f < 8,
    ensures
        (8 * r + f) / 8 == r,
        (8 * r + f) % 8 == f,
{
    assert((8 * r + f) / 8 == r && (8 * r + f) % 8 == f) by (nonlinear_arith)
        requires
            0 <= r < 8 && 0 <= f < 8,
    ;
}

/// Pawn files mirror with the board.
proof fn lemma_pof_h(p1: u64, p2: u64, g: int)
    requires
        hmirrored(p1, p2),
        0 <= g < 8,
    ensures
        pawn_on_file(p2, g) == pawn_on_file(p1, 7 - g),
{
    if pawn_on_file(p2, g) {
        let t = choose|t: int| 0 <= t < 64 && has(p2, t) && t % 8 == g;
        lemma_hmirror_coords(t);
        assert(has(p1, hmirror(t)) && hmirror(t) % 8 == 7 - g);
        assert(pawn_on_file(p1, 7 - g));
    }
    if pawn_on_file(p1, 7 - g) {
        let t = choose|t: int| 0 <= t < 64 && has(p1, t) && t % 8 == 7 - g;
        lemma_hmirror_coords(t);
        assert(has(p2, hmirror(t)) && hmirror(t) % 8 == g);
        assert(pawn_on_file(p2, g));
    }
}

/// Pawn safety mirrors with the board.
proof fn lemma_safe_h(ep1: u64, ep2: u64, side: int, t: int)
    requires
        hmirrored(ep1, ep2),
        0 <= t < 64,
    ensures
        spec_safe(ep2, side, hmirror(t)) == spec_safe(ep1, side, t),
{
    lemma_hmirror_coords(t);
    let tr = t / 8;
    let tf = t % 8;
    if side == 0 {
        if tr + 1 < 8 {
            if tf < 7 {
                lemma_divmod(tr + 1, tf + 1);
                lemma_hmirror_coords(8 * (tr + 1) + tf + 1);
            }
            if tf > 0 {
                lemma_divmod(tr + 1, tf - 1);
                lemma_hmirror_coords(8 * (tr + 1) + tf - 1);
            }
        }
    } else {
        if tr - 1 >= 0 {
            if tf < 7 {
                lemma_divmod(tr - 1, tf + 1);
                lemma_hmirror_coords(8 * (tr - 1) + tf + 1);
            }
            if tf > 0 {
                lemma_divmod(tr - 1, tf - 1);
                lemma_hmirror_coords(8 * (tr - 1) + tf - 1);
            }
        }
    }
}

/// Forward spans mirror with the board.
proof fn lemma_span_h(ep1: u64, ep2: u64, side: int, sq: int)
    requires
        hmirrored(ep1, ep2),
        0 <= sq < 64,
    ensures
        span_blocked(ep2, side, hmirror(sq)) == span_blocked(ep1, side, sq),
{
    lemma_hmirror_coords(sq);
    if span_blocked(ep2, side, hmirror(sq)) {
        let t = choose|t: int| 0 <= t < 64 && has(ep2, t) && in_span(side, hmirror(sq), t);
        lemma_hmirror_coords(t);
        assert(has(ep1, hmirror(t)) && in_span(side, sq, hmirror(t)));
        assert(span_blocked(ep1, side, sq));
    }
    if span_blocked(ep1, side, sq) {
        let t = choose|t: int| 0 <= t < 64 && has(ep1, t) && in_span(side, sq, t);
        lemma_hmirror_coords(t);
        assert(has(ep2, hmirror(t)) && in_span(side, hmirror(sq), hmirror(t)));
        assert(span_blocked(ep2, side, hmirror(sq)));
    }
}


/// One ray mirrors with the board: the same squares seen file-mirrored.
proof fn lemma_ray_h(
    occ1: u64,
    occ2: u64,
    ep1: u64,
    ep2: u64,
    side: int,
    r: int,
    f: int,
    dr: int,
    df: int,
    fuel: nat,
)
    requires
        hmirrored(occ1, occ2),
        hmirrored(ep1, ep2),
        0 <= r < 8,
        0 <= f < 8,
        -1 <= dr <= 1,
        -1 <= df <= 1,
    ensures
        spec_ray(occ2, ep2, side, r, 7 - f, dr, -df, fuel) == spec_ray(
            occ1,
            ep1,
            side,
            r,
            f,
            dr,
            df,
            fuel,
        ),
    decreases fuel,
{
    if fuel > 0 {
        let nr = r + dr;
        let nf = f + df;
        if 0 <= nr < 8 && 0 <= nf < 8 {
            lemma_divmod(nr, nf);
            let t = 8 * nr + nf;
            lemma_hmirror_coords(t);
            assert(hmirror(t) == 8 * nr + (7 - nf));
            lemma_safe_h(ep1, ep2, side, t);
            assert(has(occ2, 8 * nr + (7 - nf)) == has(occ1, t));
            lemma_ray_h(occ1, occ2, ep1, ep2, side, nr, nf, dr, df, (fuel - 1) as nat);
        }
    }
}

/// One knight target mirrors with the board.
proof fn lemma_kstep_h(ep1: u64, ep2: u64, side: int, r: int, f: int, dr: int, df: int)
    requires
        hmirrored(ep1, ep2),
        0 <= r < 8,
        0 <= f < 8,
        -2 <= dr <= 2,
        -2 <= df <= 2,
    ensures
        knight_step(ep2, side, r, 7 - f, dr, -df) == knight_step(ep1, side, r, f, dr, df),
{
    let nr = r + dr;
    let nf = f + df;
    if 0 <= nr < 8 && 0 <= nf < 8 {
        lemma_divmod(nr, nf);
        lemma_hmirror_coords(8 * nr + nf);
        lemma_safe_h(ep1, ep2, side, 8 * nr + nf);
    }
}

/// Knight mobility mirrors with the board.
proof fn lemma_knight_h(ep1: u64, ep2: u64, side: int, sq: int)
    requires
        hmirrored(ep1, ep2),
        0 <= sq < 64,
    ensures
        spec_knight_mob(ep2, side, hmirror(sq)) == spec_knight_mob(ep1, side, sq),
{
    lemma_hmirror_coords(sq);
    let r = sq / 8;
    let f = sq % 8;
    lemma_kstep_h(ep1, ep2, side, r, f, 1, 2);
    lemma_kstep_h(ep1, ep2, side, r, f, 2, 1);
    lemma_kstep_h(ep1, ep2, side, r, f, 2, -1);
    lemma_kstep_h(ep1, ep2, side, r, f, 1, -2);
    lemma_kstep_h(ep1, ep2, side, r, f, -1, -2);
    lemma_kstep_h(ep1, ep2, side, r, f, -2, -1);
    lemma_kstep_h(ep1, ep2, side, r, f, -2, 1);
    lemma_kstep_h(ep1, ep2, side, r, f, -1, 2);
}

/// Sliding mobility mirrors with the board, for all three sliders.
proof fn lemma_sliders_h(occ1: u64, occ2: u64, ep1: u64, ep2: u64, side: int, sq: int)
    requires
        hmirrored(occ1, occ2),
        hmirrored(ep1, ep2),
        0 <= sq < 64,
    ensures
        spec_bishop_mob(occ2, ep2, side, hmirror(sq)) == spec_bishop_mob(occ1, ep1, side, sq),
        spec_rook_mob(occ2, ep2, side, hmirror(sq)) == spec_rook_mob(occ1, ep1, side, sq),
        spec_queen_mob(occ2, ep2, side, hmirror(sq)) == spec_queen_mob(occ1, ep1, side, sq),
{
    lemma_hmirror_coords(sq);
    let r = sq / 8;
    let f = sq % 8;
    lemma_ray_h(occ1, occ2, ep1, ep2, side, r, f, 1, 1, 7);
    lemma_ray_h(occ1, occ2, ep1, ep2, side, r, f, 1, -1, 7);
    lemma_ray_h(occ1, occ2, ep1, ep2, side, r, f, -1, 1, 7);
    lemma_ray_h(occ1, occ2, ep1, ep2, side, r, f, -1, -1, 7);
    lemma_ray_h(occ1, occ2, ep1, ep2, side, r, f, 1, 0, 7);
    lemma_ray_h(occ1, occ2, ep1, ep2, side, r, f, -1, 0, 7);
    lemma_ray_h(occ1, occ2, ep1, ep2, side, r, f, 0, 1, 7);
    lemma_ray_h(occ1, occ2, ep1, ep2, side, r, f, 0, -1, 7);
}


/// The occupancy of a mirrored board is the mirrored occupancy.
proof fn lemma_occ_h(bb1: Seq<u64>, bb2: Seq<u64>)
    requires
        board_hmirrored(bb1, bb2),
    ensures
        hmirrored(occ_all(bb1), occ_all(bb2)),
{
    assert forall|j: int| 0 <= j < 64 implies has(occ_all(bb2), j) == has(
        occ_all(bb1),
        hmirror(j),
    ) by {
        lemma_hmirror_coords(j);
        let m = hmirror(j);
        lemma_union(bb1[0], bb1[1], m);
        lemma_union(bb1[0] | bb1[1], bb1[2], m);
        lemma_union(bb1[0] | bb1[1] | bb1[2], bb1[3], m);
        lemma_union(bb1[0] | bb1[1] | bb1[2] | bb1[3], bb1[4], m);
        lemma_union(bb1[0] | bb1[1] | bb1[2] | bb1[3] | bb1[4], bb1[5], m);
        lemma_union(bb1[6], bb1[7], m);
        lemma_union(bb1[6] | bb1[7], bb1[8], m);
        lemma_union(bb1[6] | bb1[7] | bb1[8], bb1[9], m);
        lemma_union(bb1[6] | bb1[7] | bb1[8] | bb1[9], bb1[10], m);
        lemma_union(bb1[6] | bb1[7] | bb1[8] | bb1[9] | bb1[10], bb1[11], m);
        lemma_union(crate::features::side_occ(bb1, 0), crate::features::side_occ(bb1, 1), m);
        lemma_union(bb2[0], bb2[1], j);
        lemma_union(bb2[0] | bb2[1], bb2[2], j);
        lemma_union(bb2[0] | bb2[1] | bb2[2], bb2[3], j);
        lemma_union(bb2[0] | bb2[1] | bb2[2] | bb2[3], bb2[4], j);
        lemma_union(bb2[0] | bb2[1] | bb2[2] | bb2[3] | bb2[4], bb2[5], j);
        lemma_union(bb2[6], bb2[7], j);
        lemma_union(bb2[6] | bb2[7], bb2[8], j);
        lemma_union(bb2[6] | bb2[7] | bb2[8], bb2[9], j);
        lemma_union(bb2[6] | bb2[7] | bb2[8] | bb2[9], bb2[10], j);
        lemma_union(bb2[6] | bb2[7] | bb2[8] | bb2[9] | bb2[10], bb2[11], j);
        lemma_union(crate::features::side_occ(bb2, 0), crate::features::side_occ(bb2, 1), j);
    }
}

/// A side's king stands alone on square `k`.
pub open spec fn king_alone(bb: Seq<u64>, side: int, k: int) -> bool {
    &&& 0 <= k < 64
    &&& has(bb[6 * side + 5], k)
    &&& forall|j: int| #[trigger] has(bb[6 * side + 5], j) ==> j == k
}

/// The file-mirror flag flips with the board when the side has one king.
proof fn lemma_hflip_h(bb1: Seq<u64>, bb2: Seq<u64>, side: int, k: int)
    requires
        board_hmirrored(bb1, bb2),
        0 <= side < 2,
        king_alone(bb1, side, k),
    ensures
        spec_hflip(bb2, side) == !spec_hflip(bb1, side),
{
    lemma_first_unique(bb1[6 * side + 5], k);
    lemma_hmirror_coords(k);
    assert(has(bb2[6 * side + 5], hmirror(k)));
    assert forall|j: int| #[trigger] has(bb2[6 * side + 5], j) implies j == hmirror(k) by {
        lemma_hmirror_coords(j);
    }
    lemma_first_unique(bb2[6 * side + 5], hmirror(k));
}

/// Square mirroring commutes with the emission mirroring.
proof fn lemma_msq_h(sq: int, vflip: bool, h: bool)
    requires
        0 <= sq < 64,
    ensures
        msq(hmirror(sq), vflip, !h) == msq(sq, vflip, h),
{
    lemma_hmirror_coords(sq);
}

/// One piece of a mirrored board emits exactly the ids its unmirrored twin emits.
proof fn lemma_sq_feats_h(bb1: Seq<u64>, bb2: Seq<u64>, side: int, kind: int, sq: int, k: int)
    requires
        board_hmirrored(bb1, bb2),
        0 <= side < 2,
        0 <= kind < 6,
        0 <= sq < 64,
        king_alone(bb1, side, k),
    ensures
        sq_feats(bb2, side, kind, hmirror(sq)) == sq_feats(bb1, side, kind, sq),
{
    lemma_hmirror_coords(sq);
    lemma_hflip_h(bb1, bb2, side, k);
    lemma_msq_h(sq, side == 0, spec_hflip(bb1, side));
    let f = sq % 8;
    let own1 = own_pawns(bb1, side);
    let own2 = own_pawns(bb2, side);
    let ep1 = enemy_pawns(bb1, side);
    let ep2 = enemy_pawns(bb2, side);
    if kind == 0 {
        if f < 7 {
            lemma_pof_h(own1, own2, 6 - f);
        }
        if f > 0 {
            lemma_pof_h(own1, own2, 8 - f);
        }
        lemma_span_h(ep1, ep2, side, sq);
    } else if kind == 1 {
        lemma_knight_h(ep1, ep2, side, sq);
    } else if kind == 2 {
        lemma_occ_h(bb1, bb2);
        lemma_sliders_h(occ_all(bb1), occ_all(bb2), ep1, ep2, side, sq);
    } else if kind == 3 {
        lemma_pof_h(own1, own2, 7 - f);
        lemma_pof_h(ep1, ep2, 7 - f);
        lemma_occ_h(bb1, bb2);
        lemma_sliders_h(occ_all(bb1), occ_all(bb2), ep1, ep2, side, sq);
    } else if kind == 4 {
        lemma_occ_h(bb1, bb2);
        lemma_sliders_h(occ_all(bb1), occ_all(bb2), ep1, ep2, side, sq);
    }
}


/// Occurrences of `x` among the ids one square emits, zero for a square
/// without a piece of the kind.
spec fn piece_occ(bb: Seq<u64>, side: int, kind: int, sq: int, x: u16) -> int {
    if has(bb[6 * side + kind], sq) {
        occurrences(sq_feats(bb, side, kind, sq), x)
    } else {
        0
    }
}

/// Occurrences of `x` in the emission from kind `kind`, square `sq` onward.
spec fn occf(bb: Seq<u64>, side: int, kind: int, sq: int, x: u16) -> int
    decreases 6 - kind, 64 - sq,
{
    if kind < 0 || kind >= 6 || sq < 0 {
        0
    } else if sq >= 64 {
        occf(bb, side, kind + 1, 0, x)
    } else {
        piece_occ(bb, side, kind, sq, x) + occf(bb, side, kind, sq + 1, x)
    }
}

/// The per-square occurrence sum counts the emitted sequence.
proof fn lemma_occf_feats(bb: Seq<u64>, side: int, kind: int, sq: int, x: u16)
    requires
        bb.len() == 12,
    ensures
        occf(bb, side, kind, sq, x) == occurrences(feats_from(bb, side, kind, sq), x),
    decreases 6 - kind, 64 - sq,
{
    if kind < 0 || kind >= 6 || sq < 0 {
        assert(occurrences(Seq::<u16>::empty(), x) == 0);
    } else if sq >= 64 {
        lemma_occf_feats(bb, side, kind + 1, 0, x);
    } else {
        lemma_occf_feats(bb, side, kind, sq + 1, x);
        if has(bb[6 * side + kind], sq) {
            lemma_occ_concat(sq_feats(bb, side, kind, sq), feats_from(bb, side, kind, sq + 1), x);
        }
    }
}

/// Eight files of one rank, counted term by term.
spec fn rank_occ(bb: Seq<u64>, side: int, kind: int, r: int, x: u16) -> int {
    piece_occ(bb, side, kind, 8 * r, x) + piece_occ(bb, side, kind, 8 * r + 1, x) + piece_occ(
        bb,
        side,
        kind,
        8 * r + 2,
        x,
    ) + piece_occ(bb, side, kind, 8 * r + 3, x) + piece_occ(bb, side, kind, 8 * r + 4, x)
        + piece_occ(bb, side, kind, 8 * r + 5, x) + piece_occ(bb, side, kind, 8 * r + 6, x)
        + piece_occ(bb, side, kind, 8 * r + 7, x)
}

/// One rank extends the running occurrence sum by its own.
proof fn lemma_occf_rank(bb: Seq<u64>, side: int, kind: int, r: int, x: u16)
    requires
        0 <= kind < 6,
        0 <= r < 8,
    ensures
        occf(bb, side, kind, 8 * r, x) == rank_occ(bb, side, kind, r, x) + occf(
            bb,
            side,
            kind,
            8 * r + 8,
            x,
        ),
{
    let n = 8 * r;
    assert(occf(bb, side, kind, n, x) == piece_occ(bb, side, kind, n, x) + occf(
        bb,
        side,
        kind,
        n + 1,
        x,
    ));
    assert(occf(bb, side, kind, n + 1, x) == piece_occ(bb, side, kind, n + 1, x) + occf(
        bb,
        side,
        kind,
        n + 2,
        x,
    ));
    assert(occf(bb, side, kind, n + 2, x) == piece_occ(bb, side, kind, n + 2, x) + occf(
        bb,
        side,
        kind,
        n + 3,
        x,
    ));
    assert(occf(bb, side, kind, n + 3, x) == piece_occ(bb, side, kind, n + 3, x) + occf(
        bb,
        side,
        kind,
        n + 4,
        x,
    ));
    assert(occf(bb, side, kind, n + 4, x) == piece_occ(bb, side, kind, n + 4, x) + occf(
        bb,
        side,
        kind,
        n + 5,
        x,
    ));
    assert(occf(bb, side, kind, n + 5, x) == piece_occ(bb, side, kind, n + 5, x) + occf(
        bb,
        side,
        kind,
        n + 6,
        x,
    ));
    assert(occf(bb, side, kind, n + 6, x) == piece_occ(bb, side, kind, n + 6, x) + occf(
        bb,
        side,
        kind,
        n + 7,
        x,
    ));
    assert(occf(bb, side, kind, n + 7, x) == piece_occ(bb, side, kind, n + 7, x) + occf(
        bb,
        side,
        kind,
        n + 8,
        x,
    ));
}

/// One kind contributes its eight ranks to the occurrence sum.
proof fn lemma_occf_kind(bb: Seq<u64>, side: int, kind: int, x: u16)
    requires
        0 <= kind < 6,
    ensures
        occf(bb, side, kind, 0, x) == rank_occ(bb, side, kind, 0, x) + rank_occ(
            bb,
            side,
            kind,
            1,
            x,
        ) + rank_occ(bb, side, kind, 2, x) + rank_occ(bb, side, kind, 3, x) + rank_occ(
            bb,
            side,
            kind,
            4,
            x,
        ) + rank_occ(bb, side, kind, 5, x) + rank_occ(bb, side, kind, 6, x) + rank_occ(
            bb,
            side,
            kind,
            7,
            x,
        ) + occf(bb, side, kind + 1, 0, x),
{
    lemma_occf_rank(bb, side, kind, 0, x);
    lemma_occf_rank(bb, side, kind, 1, x);
    lemma_occf_rank(bb, side, kind, 2, x);
    lemma_occf_rank(bb, side, kind, 3, x);
    lemma_occf_rank(bb, side, kind, 4, x);
    lemma_occf_rank(bb, side, kind, 5, x);
    lemma_occf_rank(bb, side, kind, 6, x);
    lemma_occf_rank(bb, side, kind, 7, x);
    assert(occf(bb, side, kind, 64, x) == occf(bb, side, kind + 1, 0, x));
}

/// One square of a mirrored board carries its unmirrored twin's occurrence count.
proof fn lemma_piece_occ_h(
    bb1: Seq<u64>,
    bb2: Seq<u64>,
    side: int,
    kind: int,
    r: int,
    f: int,
    x: u16,
    k: int,
)
    requires
        board_hmirrored(bb1, bb2),
        0 <= side < 2,
        0 <= kind < 6,
        0 <= r < 8,
        0 <= f < 8,
        king_alone(bb1, side, k),
    ensures
        piece_occ(bb2, side, kind, 8 * r + f, x) == piece_occ(bb1, side, kind, 8 * r + 7 - f, x),
{
    lemma_divmod(r, 7 - f);
    lemma_hmirror_coords(8 * r + 7 - f);
    assert(hmirror(8 * r + 7 - f) == 8 * r + f);
    assert(has(bb2[6 * side + kind], 8 * r + f) == has(bb1[6 * side + kind], 8 * r + 7 - f));
    lemma_sq_feats_h(bb1, bb2, side, kind, 8 * r + 7 - f, k);
}

/// One rank of a mirrored board carries the same occurrence sum.
proof fn lemma_rank_occ_h(
    bb1: Seq<u64>,
    bb2: Seq<u64>,
    side: int,
    kind: int,
    r: int,
    x: u16,
    k: int,
)
    requires
        board_hmirrored(bb1, bb2),
        0 <= side < 2,
        0 <= kind < 6,
        0 <= r < 8,
        king_alone(bb1, side, k),
    ensures
        rank_occ(bb2, side, kind, r, x) == rank_occ(bb1, side, kind, r, x),
{
    lemma_piece_occ_h(bb1, bb2, side, kind, r, 0, x, k);
    lemma_piece_occ_h(bb1, bb2, side, kind, r, 1, x, k);
    lemma_piece_occ_h(bb1, bb2, side, kind, r, 2, x, k);
    lemma_piece_occ_h(bb1, bb2, side, kind, r, 3, x, k);
    lemma_piece_occ_h(bb1, bb2, side, kind, r, 4, x, k);
    lemma_piece_occ_h(bb1, bb2, side, kind, r, 5, x, k);
    lemma_piece_occ_h(bb1, bb2, side, kind, r, 6, x, k);
    lemma_piece_occ_h(bb1, bb2, side, kind, r, 7, x, k);
}

/// From one kind onward, a mirrored board carries the same occurrence sum.
proof fn lemma_occf_h(bb1: Seq<u64>, bb2: Seq<u64>, side: int, kind: int, x: u16, k: int)
    requires
        board_hmirrored(bb1, bb2),
        0 <= side < 2,
        0 <= kind <= 6,
        king_alone(bb1, side, k),
    ensures
        occf(bb2, side, kind, 0, x) == occf(bb1, side, kind, 0, x),
    decreases 6 - kind,
{
    if kind >= 6 {
        assert(occf(bb2, side, kind, 0, x) == 0);
        assert(occf(bb1, side, kind, 0, x) == 0);
    } else {
        lemma_occf_kind(bb1, side, kind, x);
        lemma_occf_kind(bb2, side, kind, x);
        lemma_rank_occ_h(bb1, bb2, side, kind, 0, x, k);
        lemma_rank_occ_h(bb1, bb2, side, kind, 1, x, k);
        lemma_rank_occ_h(bb1, bb2, side, kind, 2, x, k);
        lemma_rank_occ_h(bb1, bb2, side, kind, 3, x, k);
        lemma_rank_occ_h(bb1, bb2, side, kind, 4, x, k);
        lemma_rank_occ_h(bb1, bb2, side, kind, 5, x, k);
        lemma_rank_occ_h(bb1, bb2, side, kind, 6, x, k);
        lemma_rank_occ_h(bb1, bb2, side, kind, 7, x, k);
        lemma_occf_h(bb1, bb2, side, kind + 1, x, k);
    }
}

/// A horizontally mirrored board — its lone king's file mirrored with it —
/// activates exactly the same feature multiset for the side: every id
/// occurs equally often in both emissions.
pub proof fn lemma_hmirror_same_features(bb1: Seq<u64>, bb2: Seq<u64>, side: int, k: int, x: u16)
    requires
        board_hmirrored(bb1, bb2),
        0 <= side < 2,
        king_alone(bb1, side, k),
    ensures
        occurrences(side_active(bb2, side), x) == occurrences(side_active(bb1, side), x),
{
    lemma_count_hmirrored(bb1[6 * side + 2], bb2[6 * side + 2]);
    let pre: Seq<u16> = if count(bb1[6 * side + 2]) > 1 {
        seq![crate::offsets::Offset::BISHOP_PAIR]
    } else {
        Seq::empty()
    };
    lemma_occ_concat(pre, feats_from(bb1, side, 0, 0), x);
    lemma_occ_concat(pre, feats_from(bb2, side, 0, 0), x);
    lemma_occf_feats(bb1, side, 0, 0, x);
    lemma_occf_feats(bb2, side, 0, 0, x);
    lemma_occf_h(bb1, bb2, side, 0, x, k);
}


/// The whole board colour-flipped: each side's piece sets of `b` are the
/// rank-mirrored sets of the other side of `a`.
pub open spec fn board_colorflipped(a: Seq<u64>, b: Seq<u64>) -> bool {
    &&& a.len() == 12
    &&& b.len() == 12
    &&& forall|k: int| 0 <= k < 6 ==> vmirrored(a[k], b[k + 6])
    &&& forall|k: int| 0 <= k < 6 ==> vmirrored(a[k + 6], b[k])
}

/// Pawn files survive a rank mirror.
proof fn lemma_pof_v(p1: u64, p2: u64, g: int)
    requires
        vmirrored(p1, p2),
        0 <= g < 8,
    ensures
        pawn_on_file(p2, g) == pawn_on_file(p1, g),
{
    if pawn_on_file(p2, g) {
        let t = choose|t: int| 0 <= t < 64 && has(p2, t) && t % 8 == g;
        lemma_vmirror_coords(t);
        assert(has(p1, vmirror(t)) && vmirror(t) % 8 == g);
        assert(pawn_on_file(p1, g));
    }
    if pawn_on_file(p1, g) {
        let t = choose|t: int| 0 <= t < 64 && has(p1, t) && t % 8 == g;
        lemma_vmirror_coords(t);
        assert(has(p2, vmirror(t)) && vmirror(t) % 8 == g);
        assert(pawn_on_file(p2, g));
    }
}

/// Pawn safety for the other colour mirrors with the ranks.
proof fn lemma_safe_v(ep1: u64, ep2: u64, side: int, t: int)
    requires
        vmirrored(ep1, ep2),
        0 <= side < 2,
        0 <= t < 64,
    ensures
        spec_safe(ep2, 1 - side, vmirror(t)) == spec_safe(ep1, side, t),
{
    lemma_vmirror_coords(t);
    let tr = t / 8;
    let tf = t % 8;
    if side == 0 {
        if tr + 1 < 8 {
            if tf < 7 {
                lemma_divmod(tr + 1, tf + 1);
                lemma_vmirror_coords(8 * (tr + 1) + tf + 1);
            }
            if tf > 0 {
                lemma_divmod(tr + 1, tf - 1);
                lemma_vmirror_coords(8 * (tr + 1) + tf - 1);
            }
        }
    } else {
        if tr - 1 >= 0 {
            if tf < 7 {
                lemma_divmod(tr - 1, tf + 1);
                lemma_vmirror_coords(8 * (tr - 1) + tf + 1);
            }
            if tf > 0 {
                lemma_divmod(tr - 1, tf - 1);
                lemma_vmirror_coords(8 * (tr - 1) + tf - 1);
            }
        }
    }
}

/// Forward spans of the other colour mirror with the ranks.
proof fn lemma_span_v(ep1: u64, ep2: u64, side: int, sq: int)
    requires
        vmirrored(ep1, ep2),
        0 <= side < 2,
        0 <= sq < 64,
    ensures
        span_blocked(ep2, 1 - side, vmirror(sq)) == span_blocked(ep1, side, sq),
{
    lemma_vmirror_coords(sq);
    if span_blocked(ep2, 1 - side, vmirror(sq)) {
        let t = choose|t: int| 0 <= t < 64 && has(ep2, t) && in_span(1 - side, vmirror(sq), t);
        lemma_vmirror_coords(t);
        assert(has(ep1, vmirror(t)) && in_span(side, sq, vmirror(t)));
        assert(span_blocked(ep1, side, sq));
    }
    if span_blocked(ep1, side, sq) {
        let t = choose|t: int| 0 <= t < 64 && has(ep1, t) && in_span(side, sq, t);
        lemma_vmirror_coords(t);
        assert(has(ep2, vmirror(t)) && in_span(1 - side, vmirror(sq), vmirror(t)));
        assert(span_blocked(ep2, 1 - side, vmirror(sq)));
    }
}

/// One ray of the other colour mirrors with the ranks.
proof fn lemma_ray_v(
    occ1: u64,
    occ2: u64,
    ep1: u64,
    ep2: u64,
    side: int,
    r: int,
    f: int,
    dr: int,
    df: int,
    fuel: nat,
)
    requires
        vmirrored(occ1, occ2),
        vmirrored(ep1, ep2),
        0 <= side < 2,
        0 <= r < 8,
        0 <= f < 8,
        -1 <= dr <= 1,
        -1 <= df <= 1,
    ensures
        spec_ray(occ2, ep2, 1 - side, 7 - r, f, -dr, df, fuel) == spec_ray(
            occ1,
            ep1,
            side,
            r,
            f,
            dr,
            df,
            fuel,
        ),
    decreases fuel,
{
    if fuel > 0 {
        let nr = r + dr;
        let nf = f + df;
        if 0 <= nr < 8 && 0 <= nf < 8 {
            lemma_divmod(nr, nf);
            let t = 8 * nr + nf;
            lemma_vmirror_coords(t);
            assert(vmirror(t) == 8 * (7 - nr) + nf);
            lemma_safe_v(ep1, ep2, side, t);
            assert(has(occ2, 8 * (7 - nr) + nf) == has(occ1, t));
            lemma_ray_v(occ1, occ2, ep1, ep2, side, nr, nf, dr, df, (fuel - 1) as nat);
        }
    }
}

/// One knight target of the other colour mirrors with the ranks.
proof fn lemma_kstep_v(ep1: u64, ep2: u64, side: int, r: int, f: int, dr: int, df: int)
    requires
        vmirrored(ep1, ep2),
        0 <= side < 2,
        0 <= r < 8,
        0 <= f < 8,
        -2 <= dr <= 2,
        -2 <= df <= 2,
    ensures
        knight_step(ep2, 1 - side, 7 - r, f, -dr, df) == knight_step(ep1, side, r, f, dr, df),
{
    let nr = r + dr;
    let nf = f + df;
    if 0 <= nr < 8 && 0 <= nf < 8 {
        lemma_divmod(nr, nf);
        lemma_vmirror_coords(8 * nr + nf);
        lemma_safe_v(ep1, ep2, side, 8 * nr + nf);
    }
}

/// Knight mobility of the other colour mirrors with the ranks.
proof fn lemma_knight_v(ep1: u64, ep2: u64, side: int, sq: int)
    requires
        vmirrored(ep1, ep2),
        0 <= side < 2,
        0 <= sq < 64,
    ensures
        spec_knight_mob(ep2, 1 - side, vmirror(sq)) == spec_knight_mob(ep1, side, sq),
{
    lemma_vmirror_coords(sq);
    let r = sq / 8;
    let f = sq % 8;
    lemma_kstep_v(ep1, ep2, side, r, f, 1, 2);
    lemma_kstep_v(ep1, ep2, side, r, f, 2, 1);
    lemma_kstep_v(ep1, ep2, side, r, f, 2, -1);
    lemma_kstep_v(ep1, ep2, side, r, f, 1, -2);
    lemma_kstep_v(ep1, ep2, side, r, f, -1, -2);
    lemma_kstep_v(ep1, ep2, side, r, f, -2, -1);
    lemma_kstep_v(ep1, ep2, side, r, f, -2, 1);
    lemma_kstep_v(ep1, ep2, side, r, f, -1, 2);
}

/// Sliding mobility of the other colour mirrors with the ranks.
proof fn lemma_sliders_v(occ1: u64, occ2: u64, ep1: u64, ep2: u64, side: int, sq: int)
    requires
        vmirrored(occ1, occ2),
        vmirrored(ep1, ep2),
        0 <= side < 2,
        0 <= sq < 64,
    ensures
        spec_bishop_mob(occ2, ep2, 1 - side, vmirror(sq)) == spec_bishop_mob(
            occ1,
            ep1,
            side,
            sq,
        ),
        spec_rook_mob(occ2, ep2, 1 - side, vmirror(sq)) == spec_rook_mob(occ1, ep1, side, sq),
        spec_queen_mob(occ2, ep2, 1 - side, vmirror(sq)) == spec_queen_mob(occ1, ep1, side, sq),
{
    lemma_vmirror_coords(sq);
    let r = sq / 8;
    let f = sq % 8;
    lemma_ray_v(occ1, occ2, ep1, ep2, side, r, f, 1, 1, 7);
    lemma_ray_v(occ1, occ2, ep1, ep2, side, r, f, 1, -1, 7);
    lemma_ray_v(occ1, occ2, ep1, ep2, side, r, f, -1, 1, 7);
    lemma_ray_v(occ1, occ2, ep1, ep2, side, r, f, -1, -1, 7);
    lemma_ray_v(occ1, occ2, ep1, ep2, side, r, f, 1, 0, 7);
    lemma_ray_v(occ1, occ2, ep1, ep2, side, r, f, -1, 0, 7);
    lemma_ray_v(occ1, occ2, ep1, ep2, side, r, f, 0, 1, 7);
    lemma_ray_v(occ1, occ2, ep1, ep2, side, r, f, 0, -1, 7);
}

/// The occupancy of a colour-flipped board is the rank-mirrored occupancy.
proof fn lemma_occ_v(bb1: Seq<u64>, bb2: Seq<u64>)
    requires
        board_colorflipped(bb1, bb2),
    ensures
        vmirrored(occ_all(bb1), occ_all(bb2)),
{
    assert forall|j: int| 0 <= j < 64 implies has(occ_all(bb2), j) == has(
        occ_all(bb1),
        vmirror(j),
    ) by {
        lemma_vmirror_coords(j);
        let m = vmirror(j);
        lemma_union(bb1[0], bb1[1], m);
        lemma_union(bb1[0] | bb1[1], bb1[2], m);
        lemma_union(bb1[0] | bb1[1] | bb1[2], bb1[3], m);
        lemma_union(bb1[0] | bb1[1] | bb1[2] | bb1[3], bb1[4], m);
        lemma_union(bb1[0] | bb1[1] | bb1[2] | bb1[3] | bb1[4], bb1[5], m);
        lemma_union(bb1[6], bb1[7], m);
        lemma_union(bb1[6] | bb1[7], bb1[8], m);
        lemma_union(bb1[6] | bb1[7] | bb1[8], bb1[9], m);
        lemma_union(bb1[6] | bb1[7] | bb1[8] | bb1[9], bb1[10], m);
        lemma_union(bb1[6] | bb1[7] | bb1[8] | bb1[9] | bb1[10], bb1[11], m);
        lemma_union(crate::features::side_occ(bb1, 0), crate::features::side_occ(bb1, 1), m);
        lemma_union(bb2[0], bb2[1], j);
        lemma_union(bb2[0] | bb2[1], bb2[2], j);
        lemma_union(bb2[0] | bb2[1] | bb2[2], bb2[3], j);
        lemma_union(bb2[0] | bb2[1] | bb2[2] | bb2[3], bb2[4], j);
        lemma_union(bb2[0] | bb2[1] | bb2[2] | bb2[3] | bb2[4], bb2[5], j);
        lemma_union(bb2[6], bb2[7], j);
        lemma_union(bb2[6] | bb2[7], bb2[8], j);
        lemma_union(bb2[6] | bb2[7] | bb2[8], bb2[9], j);
        lemma_union(bb2[6] | bb2[7] | bb2[8] | bb2[9], bb2[10], j);
        lemma_union(bb2[6] | bb2[7] | bb2[8] | bb2[9] | bb2[10], bb2[11], j);
        lemma_union(crate::features::side_occ(bb2, 0), crate::features::side_occ(bb2, 1), j);
    }
}

/// The file-mirror flag carries over to the other colour's lone king.
proof fn lemma_hflip_v(bb1: Seq<u64>, bb2: Seq<u64>, side: int, k: int)
    requires
        board_colorflipped(bb1, bb2),
        0 <= side < 2,
        king_alone(bb1, side, k),
    ensures
        spec_hflip(bb2, 1 - side) == spec_hflip(bb1, side),
{
    lemma_first_unique(bb1[6 * side + 5], k);
    lemma_vmirror_coords(k);
    assert(has(bb2[6 * (1 - side) + 5], vmirror(k)));
    assert forall|j: int| #[trigger] has(bb2[6 * (1 - side) + 5], j) implies j == vmirror(k) by {
        lemma_vmirror_coords(j);
    }
    lemma_first_unique(bb2[6 * (1 - side) + 5], vmirror(k));
}

/// Square mirroring commutes with the colour flip.
proof fn lemma_msq_v(sq: int, v: bool, h: bool)
    requires
        0 <= sq < 64,
    ensures
        msq(vmirror(sq), !v, h) == msq(sq, v, h),
{
    lemma_vmirror_coords(sq);
}

/// One piece of a colour-flipped board emits for the other side exactly the
/// ids its unflipped twin emits.
proof fn lemma_sq_feats_v(bb1: Seq<u64>, bb2: Seq<u64>, side: int, kind: int, sq: int, k: int)
    requires
        board_colorflipped(bb1, bb2),
        0 <= side < 2,
        0 <= kind < 6,
        0 <= sq < 64,
        king_alone(bb1, side, k),
    ensures
        sq_feats(bb2, 1 - side, kind, vmirror(sq)) == sq_feats(bb1, side, kind, sq),
{
    lemma_vmirror_coords(sq);
    lemma_hflip_v(bb1, bb2, side, k);
    lemma_msq_v(sq, side == 0, spec_hflip(bb1, side));
    let f = sq % 8;
    let own1 = own_pawns(bb1, side);
    let own2 = own_pawns(bb2, 1 - side);
    let ep1 = enemy_pawns(bb1, side);
    let ep2 = enemy_pawns(bb2, 1 - side);
    assert(vmirrored(own1, own2));
    assert(vmirrored(ep1, ep2));
    if kind == 0 {
        if f > 0 {
            lemma_pof_v(own1, own2, f - 1);
        }
        if f < 7 {
            lemma_pof_v(own1, own2, f + 1);
        }
        lemma_span_v(ep1, ep2, side, sq);
    } else if kind == 1 {
        lemma_knight_v(ep1, ep2, side, sq);
    } else if kind == 2 {
        lemma_occ_v(bb1, bb2);
        lemma_sliders_v(occ_all(bb1), occ_all(bb2), ep1, ep2, side, sq);
    } else if kind == 3 {
        lemma_pof_v(own1, own2, f);
        lemma_pof_v(ep1, ep2, f);
        lemma_occ_v(bb1, bb2);
        lemma_sliders_v(occ_all(bb1), occ_all(bb2), ep1, ep2, side, sq);
    } else if kind == 4 {
        lemma_occ_v(bb1, bb2);
        lemma_sliders_v(occ_all(bb1), occ_all(bb2), ep1, ep2, side, sq);
    }
}

/// One square of a colour-flipped board carries its unflipped twin's count.
proof fn lemma_piece_occ_v(
    bb1: Seq<u64>,
    bb2: Seq<u64>,
    side: int,
    kind: int,
    r: int,
    f: int,
    x: u16,
    k: int,
)
    requires
        board_colorflipped(bb1, bb2),
        0 <= side < 2,
        0 <= kind < 6,
        0 <= r < 8,
        0 <= f < 8,
        king_alone(bb1, side, k),
    ensures
        piece_occ(bb2, 1 - side, kind, 8 * r + f, x) == piece_occ(
            bb1,
            side,
            kind,
            8 * (7 - r) + f,
            x,
        ),
{
    lemma_divmod(7 - r, f);
    lemma_vmirror_coords(8 * (7 - r) + f);
    assert(vmirror(8 * (7 - r) + f) == 8 * r + f);
    assert(has(bb2[6 * (1 - side) + kind], 8 * r + f) == has(
        bb1[6 * side + kind],
        8 * (7 - r) + f,
    ));
    lemma_sq_feats_v(bb1, bb2, side, kind, 8 * (7 - r) + f, k);
}

/// One rank of a colour-flipped board carries the opposite rank's sum.
proof fn lemma_rank_occ_v(
    bb1: Seq<u64>,
    bb2: Seq<u64>,
    side: int,
    kind: int,
    r: int,
    x: u16,
    k: int,
)
    requires
        board_colorflipped(bb1, bb2),
        0 <= side < 2,
        0 <= kind < 6,
        0 <= r < 8,
        king_alone(bb1, side, k),
    ensures
        rank_occ(bb2, 1 - side, kind, r, x) == rank_occ(bb1, side, kind, 7 - r, x),
{
    lemma_piece_occ_v(bb1, bb2, side, kind, r, 0, x, k);
    lemma_piece_occ_v(bb1, bb2, side, kind, r, 1, x, k);
    lemma_piece_occ_v(bb1, bb2, side, kind, r, 2, x, k);
    lemma_piece_occ_v(bb1, bb2, side, kind, r, 3, x, k);
    lemma_piece_occ_v(bb1, bb2, side, kind, r, 4, x, k);
    lemma_piece_occ_v(bb1, bb2, side, kind, r, 5, x, k);
    lemma_piece_occ_v(bb1, bb2, side, kind, r, 6, x, k);
    lemma_piece_occ_v(bb1, bb2, side, kind, r, 7, x, k);
}

/// From one kind onward, a colour-flipped board carries the other side's sum.
proof fn lemma_occf_v(bb1: Seq<u64>, bb2: Seq<u64>, side: int, kind: int, x: u16, k: int)
    requires
        board_colorflipped(bb1, bb2),
        0 <= side < 2,
        0 <= kind <= 6,
        king_alone(bb1, side, k),
    ensures
        occf(bb2, 1 - side, kind, 0, x) == occf(bb1, side, kind, 0, x),
    decreases 6 - kind,
{
    if kind >= 6 {
        assert(occf(bb2, 1 - side, kind, 0, x) == 0);
        assert(occf(bb1, side, kind, 0, x) == 0);
    } else {
        lemma_occf_kind(bb1, side, kind, x);
        lemma_occf_kind(bb2, 1 - side, kind, x);
        lemma_rank_occ_v(bb1, bb2, side, kind, 0, x, k);
        lemma_rank_occ_v(bb1, bb2, side, kind, 1, x, k);
        lemma_rank_occ_v(bb1, bb2, side, kind, 2, x, k);
        lemma_rank_occ_v(bb1, bb2, side, kind, 3, x, k);
        lemma_rank_occ_v(bb1, bb2, side, kind, 4, x, k);
        lemma_rank_occ_v(bb1, bb2, side, kind, 5, x, k);
        lemma_rank_occ_v(bb1, bb2, side, kind, 6, x, k);
        lemma_rank_occ_v(bb1, bb2, side, kind, 7, x, k);
        lemma_occf_v(bb1, bb2, side, kind + 1, x, k);
    }
}

/// Swapping the piece colours — with the board mirrored vertically, as the
/// shared feature space requires — hands each side exactly the other side's
/// feature multiset: every id occurs in the flipped side's emission as often
/// as in the unflipped board's. With the training target flipped alongside, the
/// interpolated evaluation of any weight vector changes only its sign.
pub proof fn lemma_colorflip_swaps_features(
    bb1: Seq<u64>,
    bb2: Seq<u64>,
    side: int,
    k: int,
    x: u16,
)
    requires
        board_colorflipped(bb1, bb2),
        0 <= side < 2,
        king_alone(bb1, side, k),
    ensures
        occurrences(side_active(bb2, 1 - side), x) == occurrences(side_active(bb1, side), x),
{
    assert(vmirrored(bb1[6 * side + 2], bb2[6 * (1 - side) + 2]));
    lemma_count_vmirrored(bb1[6 * side + 2], bb2[6 * (1 - side) + 2]);
    let pre: Seq<u16> = if count(bb1[6 * side + 2]) > 1 {
        seq![crate::offsets::Offset::BISHOP_PAIR]
    } else {
        Seq::empty()
    };
    lemma_occ_concat(pre, feats_from(bb1, side, 0, 0), x);
    lemma_occ_concat(pre, feats_from(bb2, 1 - side, 0, 0), x);
    lemma_occf_feats(bb1, side, 0, 0, x);
    lemma_occf_feats(bb2, 1 - side, 0, 0, x);
    lemma_occf_v(bb1, bb2, side, 0, x, k);
}


/// A file mirror keeps the weighted material count, hence the phase a scan
/// of the mirrored board would yield.
pub proof fn lemma_hmirror_material(bb1: Seq<u64>, bb2: Seq<u64>)
    requires
        board_hmirrored(bb1, bb2),
    ensures
        crate::laws::weighted_count(bb2) == crate::laws::weighted_count(bb1),
{
    lemma_count_hmirrored(bb1[1], bb2[1]);
    lemma_count_hmirrored(bb1[2], bb2[2]);
    lemma_count_hmirrored(bb1[3], bb2[3]);
    lemma_count_hmirrored(bb1[4], bb2[4]);
    lemma_count_hmirrored(bb1[7], bb2[7]);
    lemma_count_hmirrored(bb1[8], bb2[8]);
    lemma_count_hmirrored(bb1[9], bb2[9]);
    lemma_count_hmirrored(bb1[10], bb2[10]);
}

/// A colour flip keeps the weighted material count, hence the phase a scan
/// of the flipped board would yield.
pub proof fn lemma_colorflip_material(bb1: Seq<u64>, bb2: Seq<u64>)
    requires
        board_colorflipped(bb1, bb2),
    ensures
        crate::laws::weighted_count(bb2) == crate::laws::weighted_count(bb1),
{
    lemma_count_vmirrored(bb1[1], bb2[7]);
    lemma_count_vmirrored(bb1[2], bb2[8]);
    lemma_count_vmirrored(bb1[3], bb2[9]);
    lemma_count_vmirrored(bb1[4], bb2[10]);
    lemma_count_vmirrored(bb1[7], bb2[1]);
    lemma_count_vmirrored(bb1[8], bb2[2]);
    lemma_count_vmirrored(bb1[9], bb2[3]);
    lemma_count_vmirrored(bb1[10], bb2[4]);
}

} // verus!
