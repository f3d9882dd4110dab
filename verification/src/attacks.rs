//! Attacked-square counting for the mobility features: knight jumps and
//! sliding rays over an occupancy set, counting only squares that no enemy
//! pawn defends.

use vstd::prelude::*;
use crate::bits::has;

verus! {

/// No enemy pawn of the side holding `ep` attacks square `t`. A pawn attacks
/// the two diagonally forward squares; Black pawns move toward rank 0, White
/// pawns toward rank 7, so the attackers of `t` stand one rank beyond it on
/// the adjacent files.
pub open spec fn spec_safe(ep: u64, side: int, t: int) -> bool {
    let tr = t / 8;
    let tf = t % 8;
    if side == 0 {
        !(tr + 1 < 8 && ((tf > 0 && has(ep, 8 * (tr + 1) + tf - 1)) || (tf < 7 && has(
            ep,
            8 * (tr + 1) + tf + 1,
        ))))
    } else {
        !(tr - 1 >= 0 && ((tf > 0 && has(ep, 8 * (tr - 1) + tf - 1)) || (tf < 7 && has(
            ep,
            8 * (tr - 1) + tf + 1,
        ))))
    }
}

/// One knight target: counts one when it lies on the board and is safe.
pub open spec fn knight_step(ep: u64, side: int, r: int, f: int, dr: int, df: int) -> nat {
    let nr = r + dr;
    let nf = f + df;
    if 0 <= nr < 8 && 0 <= nf < 8 && spec_safe(ep, side, 8 * nr + nf) {
        1
    } else {
        0
    }
}

/// Number of safe squares a knight on `sq` attacks: the eight jump targets
/// that lie on the board and are not defended by an enemy pawn.
pub open spec fn spec_knight_mob(ep: u64, side: int, sq: int) -> nat {
    let r = sq / 8;
    let f = sq % 8;
    knight_step(ep, side, r, f, 1, 2) + knight_step(ep, side, r, f, 2, 1) + knight_step(
        ep,
        side,
        r,
        f,
        2,
        -1,
    ) + knight_step(ep, side, r, f, 1, -2) + knight_step(ep, side, r, f, -1, -2) + knight_step(
        ep,
        side,
        r,
        f,
        -2,
        -1,
    ) + knight_step(ep, side, r, f, -2, 1) + knight_step(ep, side, r, f, -1, 2)
}

/// Safe squares along one ray from (`r`, `f`) in direction (`dr`, `df`):
/// every square up to and including the first occupied one counts when safe.
pub open spec fn spec_ray(
    occ: u64,
    ep: u64,
    side: int,
    r: int,
    f: int,
    dr: int,
    df: int,
    fuel: nat,
) -> nat
    decreases fuel,
{
    if fuel == 0 {
        0
    } else {
        let nr = r + dr;
        let nf = f + df;
        if !(0 <= nr < 8 && 0 <= nf < 8) {
            0
        } else {
            let t = 8 * nr + nf;
            let c: nat = if spec_safe(ep, side, t) {
                1
            } else {
                0
            };
            if has(occ, t) {
                c
            } else {
                c + spec_ray(occ, ep, side, nr, nf, dr, df, (fuel - 1) as nat)
            }
        }
    }
}

/// Safe squares a bishop on `sq` attacks through occupancy `occ`.
pub open spec fn spec_bishop_mob(occ: u64, ep: u64, side: int, sq: int) -> nat {
    let r = sq / 8;
    let f = sq % 8;
    spec_ray(occ, ep, side, r, f, 1, 1, 7) + spec_ray(occ, ep, side, r, f, 1, -1, 7) + spec_ray(
        occ,
        ep,
        side,
        r,
        f,
        -1,
        1,
        7,
    ) + spec_ray(occ, ep, side, r, f, -1, -1, 7)
}

/// Safe squares a rook on `sq` attacks through occupancy `occ`.
pub open spec fn spec_rook_mob(occ: u64, ep: u64, side: int, sq: int) -> nat {
    let r = sq / 8;
    let f = sq % 8;
    spec_ray(occ, ep, side, r, f, 1, 0, 7) + spec_ray(occ, ep, side, r, f, -1, 0, 7) + spec_ray(
        occ,
        ep,
        side,
        r,
        f,
        0,
        1,
        7,
    ) + spec_ray(occ, ep, side, r, f, 0, -1, 7)
}

/// Safe squares a queen on `sq` attacks: bishop and rook rays together.
pub open spec fn spec_queen_mob(occ: u64, ep: u64, side: int, sq: int) -> nat {
    spec_bishop_mob(occ, ep, side, sq) + spec_rook_mob(occ, ep, side, sq)
}

/// Board room along one axis from coordinate `x` in direction `d`.
pub open spec fn axis_room(x: int, d: int) -> int {
    if d > 0 {
        7 - x
    } else if d < 0 {
        x
    } else {
        7
    }
}

/// Room along a ray: how many steps stay on the board.
pub open spec fn ray_room(r: int, f: int, dr: int, df: int) -> int {
    let a = axis_room(r, dr);
    let b = axis_room(f, df);
    if a <= b {
        a
    } else {
        b
    }
}

/// A ray yields at most as many squares as fit on the board in its direction.
pub proof fn lemma_ray_room(occ: u64, ep: u64, side: int, r: int, f: int, dr: int, df: int, fuel: nat)
    requires
        0 <= r < 8,
        0 <= f < 8,
        -1 <= dr <= 1,
        -1 <= df <= 1,
        !(dr == 0 && df == 0),
    ensures
        spec_ray(occ, ep, side, r, f, dr, df, fuel) <= ray_room(r, f, dr, df),
    decreases fuel,
{
    if fuel > 0 {
        let nr = r + dr;
        let nf = f + df;
        if 0 <= nr < 8 && 0 <= nf < 8 {
            lemma_ray_room(occ, ep, side, nr, nf, dr, df, (fuel - 1) as nat);
        }
    }
}

/// A bishop attacks at most 13 squares.
pub proof fn lemma_bishop_mob_le(occ: u64, ep: u64, side: int, sq: int)
    requires
        0 <= sq < 64,
    ensures
        spec_bishop_mob(occ, ep, side, sq) <= 13,
{
    let r = sq / 8;
    let f = sq % 8;
    lemma_ray_room(occ, ep, side, r, f, 1, 1, 7);
    lemma_ray_room(occ, ep, side, r, f, 1, -1, 7);
    lemma_ray_room(occ, ep, side, r, f, -1, 1, 7);
    lemma_ray_room(occ, ep, side, r, f, -1, -1, 7);
}

/// A rook attacks at most 14 squares.
pub proof fn lemma_rook_mob_le(occ: u64, ep: u64, side: int, sq: int)
    requires
        0 <= sq < 64,
    ensures
        spec_rook_mob(occ, ep, side, sq) <= 14,
{
    let r = sq / 8;
    let f = sq % 8;
    lemma_ray_room(occ, ep, side, r, f, 1, 0, 7);
    lemma_ray_room(occ, ep, side, r, f, -1, 0, 7);
    lemma_ray_room(occ, ep, side, r, f, 0, 1, 7);
    lemma_ray_room(occ, ep, side, r, f, 0, -1, 7);
}

/// A queen attacks at most 27 squares.
pub proof fn lemma_queen_mob_le(occ: u64, ep: u64, side: int, sq: int)
    requires
        0 <= sq < 64,
    ensures
        spec_queen_mob(occ, ep, side, sq) <= 27,
{
    lemma_bishop_mob_le(occ, ep, side, sq);
    lemma_rook_mob_le(occ, ep, side, sq);
}

/// A knight attacks at most 8 squares.
pub proof fn lemma_knight_mob_le(ep: u64, side: int, sq: int)
    ensures
        spec_knight_mob(ep, side, sq) <= 8,
{
}

/// Decides whether square `t` is free of enemy pawn attack.
pub fn safe_square(ep: u64, side: u8, t: u8) -> (r: bool)
    requires
        side < 2,
        t < 64,
    ensures
        r == spec_safe(ep, side as int, t as int),
{
    let tr = t / 8;
    let tf = t % 8;
    if side == 0 {
        if tr + 1 >= 8 {
            return true;
        }
        let left = tf > 0 && crate::bits::bb_has(ep, 8 * (tr + 1) + tf - 1);
        let right = tf < 7 && crate::bits::bb_has(ep, 8 * (tr + 1) + tf + 1);
        !left && !right
    } else {
        if tr == 0 {
            return true;
        }
        let left = tf > 0 && crate::bits::bb_has(ep, 8 * (tr - 1) + tf - 1);
        let right = tf < 7 && crate::bits::bb_has(ep, 8 * (tr - 1) + tf + 1);
        !left && !right
    }
}

/// One knight target, counted when on the board and safe.
fn knight_probe(ep: u64, side: u8, r: i16, f: i16, dr: i16, df: i16) -> (n: u8)
    requires
        side < 2,
        0 <= r < 8,
        0 <= f < 8,
        -2 <= dr <= 2,
        -2 <= df <= 2,
    ensures
        n == knight_step(ep, side as int, r as int, f as int, dr as int, df as int),
{
    let nr = r + dr;
    let nf = f + df;
    if 0 <= nr && nr < 8 && 0 <= nf && nf < 8 {
        let t = (8 * nr + nf) as u8;
        if safe_square(ep, side, t) {
            1
        } else {
            0
        }
    } else {
        0
    }
}

/// Counts the safe squares a knight on `sq` attacks.
pub fn knight_mobility(ep: u64, side: u8, sq: u8) -> (n: u8)
    requires
        side < 2,
        sq < 64,
    ensures
        n == spec_knight_mob(ep, side as int, sq as int),
        n <= 8,
{
    let r = (sq / 8) as i16;
    let f = (sq % 8) as i16;
    let n = knight_probe(ep, side, r, f, 1, 2) + knight_probe(ep, side, r, f, 2, 1) + knight_probe(
        ep,
        side,
        r,
        f,
        2,
        -1,
    ) + knight_probe(ep, side, r, f, 1, -2) + knight_probe(ep, side, r, f, -1, -2) + knight_probe(
        ep,
        side,
        r,
        f,
        -2,
        -1,
    ) + knight_probe(ep, side, r, f, -2, 1) + knight_probe(ep, side, r, f, -1, 2);
    n
}

/// Counts the safe squares along one ray.
fn ray_mobility(occ: u64, ep: u64, side: u8, r: u8, f: u8, dr: i16, df: i16) -> (n: u8)
    requires
        side < 2,
        r < 8,
        f < 8,
        -1 <= dr <= 1,
        -1 <= df <= 1,
    ensures
        n == spec_ray(occ, ep, side as int, r as int, f as int, dr as int, df as int, 7),
        n <= 7,
{
    let mut n: u8 = 0;
    let mut cr: i16 = r as i16;
    let mut cf: i16 = f as i16;
    let mut fuel: u8 = 7;
    while fuel > 0
        invariant
            side < 2,
            -1 <= dr <= 1,
            -1 <= df <= 1,
            0 <= cr < 8,
            0 <= cf < 8,
            fuel <= 7,
            n <= 7 - fuel,
            n + spec_ray(occ, ep, side as int, cr as int, cf as int, dr as int, df as int, fuel as nat)
                == spec_ray(occ, ep, side as int, r as int, f as int, dr as int, df as int, 7),
        decreases fuel,
    {
        let nr = cr + dr;
        let nf = cf + df;
        if !(0 <= nr && nr < 8 && 0 <= nf && nf < 8) {
            return n;
        }
        let t = (8 * nr + nf) as u8;
        if safe_square(ep, side, t) {
            n = n + 1;
        }
        if crate::bits::bb_has(occ, t) {
            return n;
        }
        cr = nr;
        cf = nf;
        fuel = fuel - 1;
    }
    n
}

/// Counts the safe squares a bishop on `sq` attacks through `occ`.
pub fn bishop_mobility(occ: u64, ep: u64, side: u8, sq: u8) -> (n: u8)
    requires
        side < 2,
        sq < 64,
    ensures
        n == spec_bishop_mob(occ, ep, side as int, sq as int),
        n <= 13,
{
    let r = sq / 8;
    let f = sq % 8;
    let n = ray_mobility(occ, ep, side, r, f, 1, 1) + ray_mobility(occ, ep, side, r, f, 1, -1)
        + ray_mobility(occ, ep, side, r, f, -1, 1) + ray_mobility(occ, ep, side, r, f, -1, -1);
    proof {
        lemma_bishop_mob_le(occ, ep, side as int, sq as int);
    }
    n
}

/// Counts the safe squares a rook on `sq` attacks through `occ`.
pub fn rook_mobility(occ: u64, ep: u64, side: u8, sq: u8) -> (n: u8)
    requires
        side < 2,
        sq < 64,
    ensures
        n == spec_rook_mob(occ, ep, side as int, sq as int),
        n <= 14,
{
    let r = sq / 8;
    let f = sq % 8;
    let n = ray_mobility(occ, ep, side, r, f, 1, 0) + ray_mobility(occ, ep, side, r, f, -1, 0)
        + ray_mobility(occ, ep, side, r, f, 0, 1) + ray_mobility(occ, ep, side, r, f, 0, -1);
    proof {
        lemma_rook_mob_le(occ, ep, side as int, sq as int);
    }
    n
}

/// Counts the safe squares a queen on `sq` attacks through `occ`.
pub fn queen_mobility(occ: u64, ep: u64, side: u8, sq: u8) -> (n: u8)
    requires
        side < 2,
        sq < 64,
    ensures
        n == spec_queen_mob(occ, ep, side as int, sq as int),
        n <= 27,
{
    let n = bishop_mobility(occ, ep, side, sq) + rook_mobility(occ, ep, side, sq);
    n
}

} // verus!
