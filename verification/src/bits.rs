//! A 64-bit word as a set of board squares 0..64, with the few bit-level
//! facts the rest of the library needs.

use vstd::prelude::*;

verus! {

/// Square `sq` is a member of the square set `bb`.
pub open spec fn has(bb: u64, sq: int) -> bool {
    0 <= sq < 64 && (bb >> (sq as u64)) & 1u64 == 1u64
}

/// Number of members of `bb` below square `n`.
pub open spec fn count_below(bb: u64, n: nat) -> nat
    decreases n,
{
    if n == 0 {
        0
    } else {
        count_below(bb, (n - 1) as nat) + (if has(bb, n - 1) {
            1nat
        } else {
            0nat
        })
    }
}

/// Number of members of `bb`.
pub open spec fn count(bb: u64) -> nat {
    count_below(bb, 64)
}

/// Least member of `bb` at or above `i`, or 64 if there is none.
pub open spec fn first_at_or_above(bb: u64, i: nat) -> nat
    decreases 64 - i,
{
    if i >= 64 {
        64
    } else if has(bb, i as int) {
        i
    } else {
        first_at_or_above(bb, i + 1)
    }
}

/// Least member of `bb`, or 64 if `bb` is empty.
pub open spec fn first(bb: u64) -> nat {
    first_at_or_above(bb, 0)
}

/// The empty set has no members.
pub proof fn lemma_empty_has_none(j: int)
    ensures
        !(has(0u64, j)),
{
    if 0 <= j < 64 {
        let ju = j as u64;
        assert((0u64 >> ju) & 1u64 == 0u64) by (bit_vector);
    }
}

/// Membership after inserting one square.
pub proof fn lemma_insert(bb: u64, s: u64, j: int)
    requires
        s < 64,
    ensures
        has(bb | (1u64 << s), j) == (has(bb, j) || j == s),
{
    if 0 <= j < 64 {
        let ju = j as u64;
        assert(((bb | (1u64 << s)) >> ju) & 1u64 == 1u64 <==> ((bb >> ju) & 1u64 == 1u64 || ju
            == s)) by (bit_vector)
            requires
                s < 64 && ju < 64,
        ;
    } else {
        assert(j != s);
    }
}

/// Membership in a union.
pub proof fn lemma_union(a: u64, b: u64, j: int)
    ensures
        has(a | b, j) == (has(a, j) || has(b, j)),
{
    if 0 <= j < 64 {
        let ju = j as u64;
        assert(((a | b) >> ju) & 1u64 == 1u64 <==> ((a >> ju) & 1u64 == 1u64 || (b >> ju) & 1u64
            == 1u64)) by (bit_vector)
            requires
                ju < 64,
        ;
    }
}

/// Tests membership of `sq` in `bb`.
pub fn bb_has(bb: u64, sq: u8) -> (r: bool)
    requires
        sq < 64,
    ensures
        r == has(bb, sq as int),
{
    (bb >> (sq as u64)) & 1u64 == 1u64
}

/// Inserts `sq` into `bb`.
pub fn bb_insert(bb: u64, sq: u8) -> (r: u64)
    requires
        sq < 64,
    ensures
        r == bb | (1u64 << (sq as u64)),
        forall|j: int| has(r, j) == (has(bb, j) || j == sq as int),
{
    proof {
        assert forall|j: int| has(bb | (1u64 << (sq as u64)), j) == (has(bb, j) || j
            == sq as int) by {
            lemma_insert(bb, sq as u64, j);
        }
    }
    bb | (1u64 << (sq as u64))
}

/// Counts the members of `bb`.
pub fn bb_count(bb: u64) -> (n: u8)
    ensures
        n == count(bb),
        n <= 64,
{
    let mut n: u8 = 0;
    let mut i: u8 = 0;
    while i < 64
        invariant
            i <= 64,
            n == count_below(bb, i as nat),
            n <= i,
        decreases 64 - i,
    {
        if bb_has(bb, i) {
            n = n + 1;
        }
        i = i + 1;
    }
    n
}

/// Least member of `bb`, or 64 if `bb` is empty.
pub fn bb_first(bb: u64) -> (r: u8)
    ensures
        r == first(bb),
        r <= 64,
{
    let mut i: u8 = 0;
    while i < 64
        invariant
            i <= 64,
            first(bb) == first_at_or_above(bb, i as nat),
        decreases 64 - i,
    {
        if bb_has(bb, i) {
            return i;
        }
        i = i + 1;
    }
    64
}

/// Inserting a square not yet present raises the count by one.
pub proof fn lemma_insert_count_below(bb: u64, s: u64, n: nat)
    requires
        s < 64,
        !(has(bb, s as int)),
    ensures
        count_below(bb | (1u64 << s), n) == count_below(bb, n) + (if s < n {
            1nat
        } else {
            0nat
        }),
    decreases n,
{
    if n > 0 {
        lemma_insert_count_below(bb, s, (n - 1) as nat);
        lemma_insert(bb, s, n - 1);
    }
}

/// Inserting a square not yet present raises the total count by one.
pub proof fn lemma_insert_count(bb: u64, s: u64)
    requires
        s < 64,
        !(has(bb, s as int)),
    ensures
        count(bb | (1u64 << s)) == count(bb) + 1,
{
    lemma_insert_count_below(bb, s, 64);
}

/// An empty set counts to zero.
pub proof fn lemma_count_below_empty(n: nat)
    ensures
        count_below(0u64, n) == 0,
    decreases n,
{
    if n > 0 {
        lemma_count_below_empty((n - 1) as nat);
        lemma_empty_has_none(n - 1);
    }
}

/// Where `i` is at or below the only member, the search from `i` finds it.
proof fn lemma_first_from(bb: u64, j: int, i: nat)
    requires
        0 <= j < 64,
        has(bb, j),
        forall|j2: int| has(bb, j2) ==> j2 == j,
        i <= j,
    ensures
        first_at_or_above(bb, i) == j,
    decreases j - i,
{
    if i < j {
        assert(!(has(bb, i as int)));
        lemma_first_from(bb, j, i + 1);
    }
}

/// The least member of a one-member set is that member.
pub proof fn lemma_first_unique(bb: u64, j: int)
    requires
        0 <= j < 64,
        has(bb, j),
        forall|j2: int| has(bb, j2) ==> j2 == j,
    ensures
        first(bb) == j,
{
    lemma_first_from(bb, j, 0);
}

} // verus!
