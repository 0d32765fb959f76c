//! Bitboards: 64-bit sets of board squares, one bit per square, together with
//! the lemmas that connect the bitwise operations used by the move generator
//! (lowest-set-bit extraction, clearing the lowest bit, masking) to the
//! set-of-squares reading of a bitboard.

use vstd::prelude::*;
use vstd::std_specs::bits::axiom_u64_trailing_zeros;
use vstd::std_specs::bits::u64_trailing_zeros;

verus! {

/// True when square `i` is a member of the bitboard `bb`; squares are numbered 0..64.
pub open spec fn bit(bb: u64, i: u64) -> bool {
    i < 64 && (bb >> i) & 1u64 == 1u64
}

/// The index of the lowest set bit of `bb` (64 when `bb` is empty).
pub open spec fn low_bit(bb: u64) -> u64 {
    u64_trailing_zeros(bb) as u64
}

/// `bb` with bit `i` cleared.
pub open spec fn clear_bit(bb: u64, i: u64) -> u64 {
    bb & !(1u64 << i)
}

/// The ascending list of the squares of `bb` at or above square `i`.
pub open spec fn bits_from(bb: u64, i: u64) -> Seq<u64>
    decreases 64 - i,
{
    if i >= 64 {
        Seq::empty()
    } else if bit(bb, i) {
        seq![i] + bits_from(bb, (i + 1) as u64)
    } else {
        bits_from(bb, (i + 1) as u64)
    }
}

/// The ascending list of all squares of `bb`.
pub open spec fn bits_of(bb: u64) -> Seq<u64> {
    bits_from(bb, 0)
}

/// The number of squares in `bb`.
pub open spec fn popcount(bb: u64) -> nat {
    bits_of(bb).len()
}

pub proof fn lemma_bit_or(a: u64, b: u64)
    by (bit_vector)
    ensures
        forall|i: u64| #[trigger] bit(a | b, i) <==> bit(a, i) || bit(b, i),
{
}

pub proof fn lemma_bit_and(a: u64, b: u64)
    by (bit_vector)
    ensures
        forall|i: u64| #[trigger] bit(a & b, i) <==> bit(a, i) && bit(b, i),
{
}

pub proof fn lemma_bit_not(a: u64)
    by (bit_vector)
    ensures
        forall|i: u64| i < 64 ==> (#[trigger] bit(!a, i) <==> !bit(a, i)),
{
}

pub proof fn lemma_bit_single(j: u64)
    by (bit_vector)
    requires
        j < 64,
    ensures
        forall|i: u64| #[trigger] bit(1u64 << j, i) <==> i == j,
{
}

pub proof fn lemma_bit_zero()
    by (bit_vector)
    ensures
        forall|i: u64| !#[trigger] bit(0u64, i),
{
}

/// Clearing the lowest set bit of a non-empty bitboard is what `bb & (bb - 1)` computes.
proof fn lemma_and_sub_one(x: u64, t: u64)
    by (bit_vector)
    requires
        t < 64,
        (x >> t) & 1u64 == 1u64,
        x << ((64 - t) as u64) == 0u64,
    ensures
        x & ((x - 1) as u64) == x & !(1u64 << t),
        x & ((x - 1) as u64) < x,
        x >= 1,
{
}

pub proof fn lemma_and_zero()
    by (bit_vector)
    ensures
        forall|x: u64| #[trigger] (x & 0u64) == 0u64,
{
}

pub proof fn lemma_and_all()
    by (bit_vector)
    ensures
        forall|x: u64| #[trigger] (x & 0xffff_ffff_ffff_ffffu64) == x,
{
}

/// Masking keeps a bitboard inside any mask it already lay inside.
pub proof fn lemma_submask_trans(a: u64, x: u64, m: u64)
    by (bit_vector)
    requires
        a & !m == 0,
    ensures
        (a & x) & !m == 0,
{
}

/// An intersection lies inside both of its masks.
pub proof fn lemma_submask(a: u64, b: u64)
    by (bit_vector)
    ensures
        (a & b) & !a == 0,
        (a & b) & !b == 0,
{
}

/// The facts the iterators need about the lowest set bit of a non-empty bitboard:
/// it is a member, nothing below it is, and `bb & (bb - 1)` removes exactly it.
pub proof fn lemma_low_bit(x: u64)
    requires
        x != 0,
    ensures
        low_bit(x) < 64,
        bit(x, low_bit(x)),
        forall|j: u64| j < low_bit(x) ==> !bit(x, j),
        x & ((x - 1) as u64) == clear_bit(x, low_bit(x)),
        x & ((x - 1) as u64) < x,
        x >= 1,
{
    axiom_u64_trailing_zeros(x);
    let t = low_bit(x);
    assert(forall|j: u64| j < t ==> !bit(x, j));
    assert(x << ((64 - t) as u64) == 0u64);
    lemma_and_sub_one(x, t);
}

/// The empty bitboard has an empty square list.
pub proof fn lemma_bits_zero(i: u64)
    ensures
        bits_from(0u64, i) == Seq::<u64>::empty(),
    decreases 64 - i,
{
    lemma_bit_zero();
    if i < 64 {
        lemma_bits_zero((i + 1) as u64);
    }
}

/// Bit membership decides equality of the square lists: two bitboards that agree
/// on every square at or above `i` have the same square list from `i` on.
pub proof fn lemma_bits_from_congr(a: u64, b: u64, i: u64)
    requires
        forall|j: u64| i <= j < 64 ==> bit(a, j) == bit(b, j),
    ensures
        bits_from(a, i) == bits_from(b, i),
    decreases 64 - i,
{
    if i < 64 {
        lemma_bits_from_congr(a, b, (i + 1) as u64);
    }
}

/// Skipping squares that are not members leaves the square list unchanged.
pub proof fn lemma_bits_from_skip(bb: u64, i: u64, t: u64)
    requires
        i <= t <= 64,
        forall|j: u64| i <= j < t ==> !bit(bb, j),
    ensures
        bits_from(bb, i) == bits_from(bb, t),
    decreases t - i,
{
    if i < t {
        lemma_bits_from_skip(bb, (i + 1) as u64, t);
    }
}

/// The square list of a non-empty bitboard is its lowest square followed by the
/// square list of the bitboard with that square removed.
pub proof fn lemma_bits_head(bb: u64)
    requires
        bb != 0,
    ensures
        bits_of(bb) == seq![low_bit(bb)] + bits_of(clear_bit(bb, low_bit(bb))),
{
    let t = low_bit(bb);
    lemma_low_bit(bb);
    lemma_bits_from_skip(bb, 0, t);
    assert(bits_from(bb, t) == seq![t] + bits_from(bb, (t + 1) as u64));
    let c = clear_bit(bb, t);
    lemma_bit_single(t);
    lemma_bit_not(1u64 << t);
    lemma_bit_and(bb, !(1u64 << t));
    assert(forall|j: u64| (t + 1) as u64 <= j < 64 ==> bit(bb, j) == bit(c, j));
    lemma_bits_from_congr(bb, c, (t + 1) as u64);
    assert(forall|j: u64| j < (t + 1) as u64 ==> !bit(c, j));
    lemma_bits_from_skip(c, 0, (t + 1) as u64);
    if t == 63 {
        assert(bits_from(bb, 64) == Seq::<u64>::empty());
        assert(bits_from(c, 64) == Seq::<u64>::empty());
    }
}

/// Every entry of the square list from `i` is a member of `bb` lying in `[i, 64)`,
/// and every such member appears; the list is strictly ascending.
pub proof fn lemma_bits_from_elems(bb: u64, i: u64)
    ensures
        forall|k: int|
            0 <= k < bits_from(bb, i).len() ==> i <= #[trigger] bits_from(bb, i)[k] < 64 && bit(
                bb,
                bits_from(bb, i)[k],
            ),
        forall|s: u64| i <= s < 64 && bit(bb, s) ==> bits_from(bb, i).contains(s),
        forall|k1: int, k2: int|
            0 <= k1 < k2 < bits_from(bb, i).len() ==> bits_from(bb, i)[k1] < bits_from(bb, i)[k2],
    decreases 64 - i,
{
    if i < 64 {
        lemma_bits_from_elems(bb, (i + 1) as u64);
        let rest = bits_from(bb, (i + 1) as u64);
        if bit(bb, i) {
            let s = bits_from(bb, i);
            assert(s == seq![i] + rest);
            assert forall|t: u64| i <= t < 64 && bit(bb, t) implies s.contains(t) by {
                if t == i {
                    assert(s[0] == i);
                } else {
                    assert(rest.contains(t));
                    let k = choose|k: int| 0 <= k < rest.len() && rest[k] == t;
                    assert(s[k + 1] == t);
                }
            }
        } else {
            assert forall|t: u64| i <= t < 64 && bit(bb, t) implies bits_from(bb, i).contains(
                t,
            ) by {
                assert(rest.contains(t));
            }
        }
    }
}

} // verus!
