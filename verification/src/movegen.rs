//! The lazy per-piece move producers and the laws that hold of them.
//!
//! A producer walks the candidate origin squares in ascending order and, for
//! the current origin, the destination bitboard in ascending order, yielding
//! one move per step. The whole output of a producer is specified as a
//! sequence of moves (`gen_list`), and each `next` call is proved to pop
//! exactly the head of that sequence.
//!
//! Pin handling is a deliberate simplification: a pinned piece is removed
//! from the candidate origins altogether (`origins & !pinned`) rather than
//! restricted to its pin ray, so a pinned slider's moves along the ray it is
//! pinned on are never generated. Callers that want those moves must leave
//! the piece out of the pinned mask and filter legality downstream.

use vstd::prelude::*;
use crate::attacks::bishop_att;
use crate::attacks::bishop_moves;
use crate::bits::bit;
use crate::bits::bits_of;
use crate::bits::clear_bit;
use crate::bits::lemma_bit_and;
use crate::bits::lemma_bit_not;
use crate::bits::lemma_bit_or;
use crate::bits::lemma_bit_single;
use crate::bits::lemma_bit_zero;
use crate::bits::lemma_bits_from_elems;
use crate::bits::lemma_bits_head;
use crate::bits::lemma_low_bit;
use crate::bits::low_bit;
use crate::bits::popcount;
use crate::board::Board;
use crate::board::ALL_PIECES;
use crate::board::BISHOP;
use crate::moves::Move;
use crate::moves::MoveType;

verus! {

/// The full target mask: a generation call unrestricted by destination.
pub const ALL_SQUARES: u64 = 0xffff_ffff_ffff_ffff;

/// The empty target mask: a generation call that admits no destination.
pub const NO_SQUARES: u64 = 0;

/// The moves one origin contributes: one move per destination square, in
/// ascending destination order.
pub open spec fn moves_for(mk: spec_fn(u64, u64) -> Move, from: u64, dd: u64) -> Seq<Move> {
    bits_of(dd).map(|k: int, t: u64| mk(from, t))
}

/// The whole output of a producer: for each origin square of `origins` from
/// square `i` up, in ascending order, the moves to each square of that
/// origin's destination bitboard `dests(origin)`, in ascending order.
pub open spec fn gen_list(
    origins: u64,
    dests: spec_fn(u64) -> u64,
    mk: spec_fn(u64, u64) -> Move,
    i: u64,
) -> Seq<Move>
    decreases 64 - i,
{
    if i >= 64 {
        Seq::empty()
    } else if bit(origins, i) {
        moves_for(mk, i, dests(i)) + gen_list(origins, dests, mk, (i + 1) as u64)
    } else {
        gen_list(origins, dests, mk, (i + 1) as u64)
    }
}

/// The number of moves a producer yields: the bits of each origin's
/// destination bitboard, summed over the origins — the size of the disjoint
/// union of the per-origin destination sets fixed at construction.
pub open spec fn gen_count(origins: u64, dests: spec_fn(u64) -> u64, i: u64) -> nat
    decreases 64 - i,
{
    if i >= 64 {
        0
    } else if bit(origins, i) {
        popcount(dests(i)) + gen_count(origins, dests, (i + 1) as u64)
    } else {
        gen_count(origins, dests, (i + 1) as u64)
    }
}

/// Producers over origin sets that agree from square `i` up generate the same
/// move sequence.
pub proof fn lemma_gen_list_congr(
    o1: u64,
    o2: u64,
    dests: spec_fn(u64) -> u64,
    mk: spec_fn(u64, u64) -> Move,
    i: u64,
)
    requires
        forall|j: u64| i <= j < 64 ==> (#[trigger] bit(o1, j)) == bit(o2, j),
    ensures
        gen_list(o1, dests, mk, i) == gen_list(o2, dests, mk, i),
    decreases 64 - i,
{
    if i < 64 {
        lemma_gen_list_congr(o1, o2, dests, mk, (i + 1) as u64);
        assert(bit(o1, i) == bit(o2, i));
    }
}

/// Origin squares below `t` that are not members contribute nothing.
pub proof fn lemma_gen_list_skip(
    origins: u64,
    dests: spec_fn(u64) -> u64,
    mk: spec_fn(u64, u64) -> Move,
    i: u64,
    t: u64,
)
    requires
        i <= t <= 64,
        forall|j: u64| i <= j < t ==> !bit(origins, j),
    ensures
        gen_list(origins, dests, mk, i) == gen_list(origins, dests, mk, t),
    decreases t - i,
{
    if i < t {
        lemma_gen_list_skip(origins, dests, mk, (i + 1) as u64, t);
    }
}

/// An empty origin set generates nothing.
pub proof fn lemma_gen_list_empty(dests: spec_fn(u64) -> u64, mk: spec_fn(u64, u64) -> Move)
    ensures
        gen_list(0u64, dests, mk, 0) == Seq::<Move>::empty(),
{
    lemma_bit_zero();
    lemma_gen_list_skip(0u64, dests, mk, 0, 64);
}

/// A producer's sequence is its lowest origin's moves followed by the sequence
/// of the producer over the remaining origins.
pub proof fn lemma_gen_list_head(
    origins: u64,
    dests: spec_fn(u64) -> u64,
    mk: spec_fn(u64, u64) -> Move,
)
    requires
        origins != 0,
    ensures
        gen_list(origins, dests, mk, 0) == moves_for(mk, low_bit(origins), dests(low_bit(origins)))
            + gen_list(clear_bit(origins, low_bit(origins)), dests, mk, 0),
{
    let t = low_bit(origins);
    lemma_low_bit(origins);
    lemma_gen_list_skip(origins, dests, mk, 0, t);
    assert(gen_list(origins, dests, mk, t) == moves_for(mk, t, dests(t)) + gen_list(
        origins,
        dests,
        mk,
        (t + 1) as u64,
    ));
    let c = clear_bit(origins, t);
    lemma_bit_single(t);
    lemma_bit_not(1u64 << t);
    lemma_bit_and(origins, !(1u64 << t));
    lemma_gen_list_congr(origins, c, dests, mk, (t + 1) as u64);
    assert(forall|j: u64| j < (t + 1) as u64 ==> !bit(c, j));
    lemma_gen_list_skip(c, dests, mk, 0, (t + 1) as u64);
}

/// The head of one origin's move list, when its destination bitboard is not
/// yet exhausted.
pub proof fn lemma_moves_for_head(mk: spec_fn(u64, u64) -> Move, from: u64, dd: u64)
    requires
        dd != 0,
    ensures
        moves_for(mk, from, dd) == seq![mk(from, low_bit(dd))] + moves_for(
            mk,
            from,
            clear_bit(dd, low_bit(dd)),
        ),
{
    lemma_bits_head(dd);
    assert(moves_for(mk, from, dd) =~= seq![mk(from, low_bit(dd))] + moves_for(
        mk,
        from,
        clear_bit(dd, low_bit(dd)),
    ));
}

/// A producer yields as many moves as its per-origin destination sets hold.
pub proof fn lemma_gen_list_len(
    origins: u64,
    dests: spec_fn(u64) -> u64,
    mk: spec_fn(u64, u64) -> Move,
    i: u64,
)
    ensures
        gen_list(origins, dests, mk, i).len() == gen_count(origins, dests, i),
    decreases 64 - i,
{
    if i < 64 {
        lemma_gen_list_len(origins, dests, mk, (i + 1) as u64);
    }
}

/// Holds when `m` is a move `mk(o, t)` for some candidate origin `o` at or
/// above `lo` and some square `t` of that origin's destination bitboard.
pub open spec fn from_candidate(
    origins: u64,
    dests: spec_fn(u64) -> u64,
    mk: spec_fn(u64, u64) -> Move,
    lo: u64,
    m: Move,
) -> bool {
    exists|o: u64, t: u64|
        lo <= o < 64 && bit(origins, o) && bit(dests(o), t) && m == #[trigger] mk(o, t)
}

/// Soundness and completeness of a producer's sequence: its members are
/// exactly the moves `mk(o, t)` with `o` a candidate origin at or above `i`
/// and `t` a square of that origin's destination bitboard.
pub proof fn lemma_gen_list_elems(
    origins: u64,
    dests: spec_fn(u64) -> u64,
    mk: spec_fn(u64, u64) -> Move,
    i: u64,
)
    ensures
        forall|k: int|
            0 <= k < gen_list(origins, dests, mk, i).len() ==> from_candidate(
                origins,
                dests,
                mk,
                i,
                #[trigger] gen_list(origins, dests, mk, i)[k],
            ),
        forall|o: u64, t: u64|
            i <= o < 64 && bit(origins, o) && bit(dests(o), t) ==> #[trigger] gen_list(
                origins,
                dests,
                mk,
                i,
            ).contains(mk(o, t)),
    decreases 64 - i,
{
    if i < 64 {
        lemma_gen_list_elems(origins, dests, mk, (i + 1) as u64);
        let rest = gen_list(origins, dests, mk, (i + 1) as u64);
        let s = gen_list(origins, dests, mk, i);
        if bit(origins, i) {
            let grp = moves_for(mk, i, dests(i));
            lemma_bits_from_elems(dests(i), 0);
            assert(s == grp + rest);
            assert forall|k: int| 0 <= k < s.len() implies from_candidate(
                origins,
                dests,
                mk,
                i,
                s[k],
            ) by {
                if k < grp.len() {
                    let t = bits_of(dests(i))[k];
                    assert(bit(dests(i), t));
                    assert(s[k] == mk(i, t));
                } else {
                    let k2 = k - grp.len();
                    assert(rest[k2] == s[k]);
                    assert(from_candidate(origins, dests, mk, (i + 1) as u64, rest[k2]));
                    let (o, t) = choose|o: u64, t: u64|
                        (i + 1) as u64 <= o < 64 && bit(origins, o) && bit(dests(o), t) && rest[k2]
                            == #[trigger] mk(o, t);
                    assert(s[k] == mk(o, t));
                }
            }
            assert forall|o: u64, t: u64|
                i <= o < 64 && bit(origins, o) && bit(dests(o), t) implies #[trigger] s.contains(
                mk(o, t),
            ) by {
                if o == i {
                    assert(bits_of(dests(i)).contains(t));
                    let k = choose|k: int|
                        0 <= k < bits_of(dests(i)).len() && #[trigger] bits_of(dests(i))[k] == t;
                    assert(grp[k] == mk(o, t));
                    assert(s[k] == mk(o, t));
                } else {
                    assert(rest.contains(mk(o, t)));
                    let k = choose|k: int| 0 <= k < rest.len() && #[trigger] rest[k] == mk(o, t);
                    assert(s[grp.len() + k] == mk(o, t));
                }
            }
        } else {
            assert(s == rest);
            assert forall|k: int| 0 <= k < s.len() implies from_candidate(
                origins,
                dests,
                mk,
                i,
                s[k],
            ) by {
                assert(from_candidate(origins, dests, mk, (i + 1) as u64, rest[k]));
                let (o, t) = choose|o: u64, t: u64|
                    (i + 1) as u64 <= o < 64 && bit(origins, o) && bit(dests(o), t) && rest[k]
                        == #[trigger] mk(o, t);
                assert(s[k] == mk(o, t));
            }
            assert forall|o: u64, t: u64|
                i <= o < 64 && bit(origins, o) && bit(dests(o), t) implies #[trigger] s.contains(
                mk(o, t),
            ) by {
                assert(o != i);
                assert(rest.contains(mk(o, t)));
            }
        }
    }
}

/// No (origin, destination) pair appears twice in a producer's sequence, for
/// any move constructor that keeps distinct pairs distinct.
pub proof fn lemma_gen_list_distinct(
    origins: u64,
    dests: spec_fn(u64) -> u64,
    mk: spec_fn(u64, u64) -> Move,
    i: u64,
)
    requires
        forall|o1: u64, t1: u64, o2: u64, t2: u64|
            o1 < 64 && t1 < 64 && o2 < 64 && t2 < 64 && #[trigger] mk(o1, t1) == #[trigger] mk(
                o2,
                t2,
            ) ==> o1 == o2 && t1 == t2,
    ensures
        forall|k1: int, k2: int|
            0 <= k1 < k2 < gen_list(origins, dests, mk, i).len() ==> gen_list(
                origins,
                dests,
                mk,
                i,
            )[k1] != gen_list(origins, dests, mk, i)[k2],
    decreases 64 - i,
{
    if i < 64 {
        lemma_gen_list_distinct(origins, dests, mk, (i + 1) as u64);
        lemma_gen_list_elems(origins, dests, mk, (i + 1) as u64);
        let rest = gen_list(origins, dests, mk, (i + 1) as u64);
        let s = gen_list(origins, dests, mk, i);
        if bit(origins, i) {
            let grp = moves_for(mk, i, dests(i));
            lemma_bits_from_elems(dests(i), 0);
            assert(s == grp + rest);
            assert forall|k1: int, k2: int| 0 <= k1 < k2 < s.len() implies s[k1] != s[k2] by {
                if k1 < grp.len() && k2 < grp.len() {
                    let t1 = bits_of(dests(i))[k1];
                    let t2 = bits_of(dests(i))[k2];
                    assert(t1 < t2);
                    assert(s[k1] == mk(i, t1) && s[k2] == mk(i, t2));
                } else if k1 < grp.len() && k2 >= grp.len() {
                    let t1 = bits_of(dests(i))[k1];
                    assert(s[k1] == mk(i, t1));
                    let k = k2 - grp.len();
                    assert(from_candidate(origins, dests, mk, (i + 1) as u64, rest[k]));
                    let (o2, t2) = choose|o2: u64, t2: u64|
                        (i + 1) as u64 <= o2 < 64 && bit(origins, o2) && bit(dests(o2), t2)
                            && rest[k] == #[trigger] mk(o2, t2);
                    assert(s[k2] == mk(o2, t2));
                    assert(o2 != i);
                } else {
                    assert(s[k1] == rest[k1 - grp.len()] && s[k2] == rest[k2 - grp.len()]);
                }
            }
        }
    }
}

/// The piece index occupying square `s` (0..12), or 12 when the square is
/// empty; unique on a well-formed board, where no square holds two pieces.
pub open spec fn occupant(b: Board, s: u64) -> int {
    if exists|p: int| 0 <= p < 12 && bit(#[trigger] b.pieces@[p], s) {
        choose|p: int| 0 <= p < 12 && bit(#[trigger] b.pieces@[p], s)
    } else {
        12
    }
}

/// Resolves which piece occupies `sq`; capture producers use it to fill the
/// captured-piece field of the moves they yield.
pub fn get_xpiece(b: &Board, sq: u32) -> (r: Option<u32>)
    requires
        b.wf(),
        sq < 64,
    ensures
        match r {
            Some(p) => p < 12 && occupant(*b, sq as u64) == p as int && bit(
                b.pieces@[p as int],
                sq as u64,
            ),
            None => forall|p: int| 0 <= p < 12 ==> !bit(#[trigger] b.pieces@[p], sq as u64),
        },
{
    let mut p: usize = 0;
    while p < 12
        invariant
            b.wf(),
            sq < 64,
            p <= 12,
            forall|q: int| 0 <= q < p ==> !bit(#[trigger] b.pieces@[q], sq as u64),
        decreases 12 - p,
    {
        if (b.pieces[p] >> (sq as u64)) & 1u64 == 1u64 {
            proof {
                assert(bit(b.pieces@[p as int], sq as u64));
                assert(exists|q: int| 0 <= q < 12 && bit(#[trigger] b.pieces@[q], sq as u64));
                let q = choose|q: int| 0 <= q < 12 && bit(#[trigger] b.pieces@[q], sq as u64);
                assert(bit(b.pieces@[q], sq as u64));
                if q != p as int {
                    lemma_bit_zero();
                    if q < p as int {
                        lemma_bit_and(b.pieces@[q], b.pieces@[p as int]);
                        assert(b.pieces@[q] & b.pieces@[p as int] == 0);
                        assert(bit(b.pieces@[q] & b.pieces@[p as int], sq as u64));
                    } else {
                        lemma_bit_and(b.pieces@[p as int], b.pieces@[q]);
                        assert(b.pieces@[p as int] & b.pieces@[q] == 0);
                        assert(bit(b.pieces@[p as int] & b.pieces@[q], sq as u64));
                    }
                    assert(false);
                }
                assert(occupant(*b, sq as u64) == p as int);
            }
            return Some(p as u32);
        }
        p = p + 1;
    }
    None
}

/// The move record a quiet producer yields for one origin and destination.
pub open spec fn quiet_mk(piece: u32) -> spec_fn(u64, u64) -> Move {
    |o: u64, t: u64|
        Move { from: o as u32, to: t as u32, piece, xpiece: 0, move_type: MoveType::Quiet }
}

/// The move record a capture producer on board `b` yields for one origin and
/// destination: the captured piece is the destination's occupant.
pub open spec fn cap_mk(b: Board, piece: u32) -> spec_fn(u64, u64) -> Move {
    |o: u64, t: u64|
        Move {
            from: o as u32,
            to: t as u32,
            piece,
            xpiece: occupant(b, t) as u32,
            move_type: MoveType::Cap,
        }
}

/// A quiet bishop's destination bitboard for one origin: attacked, empty and
/// inside the target mask.
pub open spec fn bishop_quiet_dests(occ: u64, target: u64) -> spec_fn(u64) -> u64 {
    |o: u64| bishop_att(occ, o) & !occ & target
}

/// A capturing bishop's destination bitboard for one origin: attacked and
/// holding an enemy piece inside the target mask (`opp` is already masked).
pub open spec fn bishop_cap_dests(occ: u64, opp: u64) -> spec_fn(u64) -> u64 {
    |o: u64| bishop_att(occ, o) & opp
}

/// The candidate origin bitboard: the side to move's bishops less the pinned.
pub open spec fn bishop_origins(b: Board, pinned: u64) -> u64 {
    b.pieces@[BISHOP + b.ctm as int] & !pinned
}

/// The whole quiet-move output of the bishop producer for `b` under the given
/// pinned and target masks, in producer order.
pub open spec fn bishop_quiet_list(b: Board, pinned: u64, target: u64) -> Seq<Move> {
    gen_list(
        bishop_origins(b, pinned),
        bishop_quiet_dests(b.util@[ALL_PIECES as int], target),
        quiet_mk((BISHOP + b.ctm) as u32),
        0,
    )
}

/// The whole capture output of the bishop producer for `b` under the given
/// pinned and target masks, in producer order.
pub open spec fn bishop_cap_list(b: Board, pinned: u64, target: u64) -> Seq<Move> {
    gen_list(
        bishop_origins(b, pinned),
        bishop_cap_dests(b.util@[ALL_PIECES as int], b.util@[1 - b.ctm as int] & target),
        cap_mk(b, (BISHOP + b.ctm) as u32),
        0,
    )
}

/// The lazy quiet-move producer for bishops: walks the unpinned bishops in
/// ascending square order and, per bishop, the empty attacked target squares
/// in ascending order.
pub struct BishopQuietIterator {
    piece: u32,
    bishops: u64,
    occ: u64,
    quiet: u64,
    target: u64,
}

impl BishopQuietIterator {
    /// The moves this producer has not yet yielded.
    pub closed spec fn pending(self) -> Seq<Move> {
        if self.bishops == 0 {
            Seq::empty()
        } else {
            moves_for(quiet_mk(self.piece), low_bit(self.bishops), self.quiet) + gen_list(
                clear_bit(self.bishops, low_bit(self.bishops)),
                bishop_quiet_dests(self.occ, self.target),
                quiet_mk(self.piece),
                0,
            )
        }
    }

    /// Builds the producer; its whole output is the quiet-move list of `b`
    /// under the two masks.
    pub fn new(b: &Board, pinned: u64, target: u64) -> (it: BishopQuietIterator)
        requires
            b.ctm == 0 || b.ctm == 1,
        ensures
            it.pending() == bishop_quiet_list(*b, pinned, target),
    {
        let bishops = b.pieces[BISHOP + b.ctm] & !pinned;
        let occ = b.util[ALL_PIECES];
        let from = (bishops.trailing_zeros() as usize) % 64;
        let quiet = bishop_moves(occ, from) & !occ & target;
        let it = BishopQuietIterator {
            piece: (BISHOP + b.ctm) as u32,
            bishops,
            occ,
            quiet,
            target,
        };
        proof {
            if bishops == 0 {
                lemma_gen_list_empty(bishop_quiet_dests(occ, target), quiet_mk(it.piece));
            } else {
                lemma_low_bit(bishops);
                lemma_gen_list_head(
                    bishops,
                    bishop_quiet_dests(occ, target),
                    quiet_mk(it.piece),
                );
            }
        }
        it
    }

    /// Yields the head of `pending`, or nothing once the producer is
    /// exhausted; consuming a move removes exactly it from `pending`.
    pub fn next_quiet(&mut self) -> (r: Option<Move>)
        ensures
            old(self).pending().len() == 0 ==> r is None && final(self).pending() == old(self).pending(),
            old(self).pending().len() > 0 ==> r == Some(old(self).pending()[0]) && final(self).pending() == old(self).pending().drop_first(),
    {
        if self.bishops == 0 {
            return None;
        }
        while self.quiet == 0
            invariant
                self.bishops != 0,
                self.occ == old(self).occ,
                self.target == old(self).target,
                self.piece == old(self).piece,
                self.pending() == old(self).pending(),
            decreases self.bishops,
        {
            proof {
                lemma_low_bit(self.bishops);
                crate::bits::lemma_bits_zero(0);
                assert(moves_for(quiet_mk(self.piece), low_bit(self.bishops), 0u64)
                    =~= Seq::<Move>::empty());
            }
            let rest = self.bishops & (self.bishops - 1);
            if rest == 0 {
                proof {
                    lemma_gen_list_empty(
                        bishop_quiet_dests(self.occ, self.target),
                        quiet_mk(self.piece),
                    );
                }
                return None;
            }
            self.bishops = rest;
            let from: usize = self.bishops.trailing_zeros() as usize;
            proof {
                lemma_low_bit(self.bishops);
            }
            self.quiet = bishop_moves(self.occ, from) & !self.occ & self.target;
            proof {
                lemma_gen_list_head(
                    self.bishops,
                    bishop_quiet_dests(self.occ, self.target),
                    quiet_mk(self.piece),
                );
            }
        }
        let from: u32 = self.bishops.trailing_zeros();
        let to: u32 = self.quiet.trailing_zeros();
        proof {
            lemma_low_bit(self.bishops);
            lemma_low_bit(self.quiet);
            lemma_moves_for_head(quiet_mk(self.piece), low_bit(self.bishops), self.quiet);
            assert(self.pending() =~= seq![quiet_mk(self.piece)(low_bit(self.bishops), low_bit(self.quiet))]
                + (moves_for(quiet_mk(self.piece), low_bit(self.bishops), clear_bit(self.quiet, low_bit(self.quiet)))
                    + gen_list(
                    clear_bit(self.bishops, low_bit(self.bishops)),
                    bishop_quiet_dests(self.occ, self.target),
                    quiet_mk(self.piece),
                    0,
                )));
        }
        self.quiet = self.quiet & (self.quiet - 1);
        proof {
            assert(old(self).pending().drop_first() =~= self.pending());
        }
        Some(Move::new(from, to, self.piece, 0, MoveType::Quiet))
    }
}

/// The lazy capture producer for bishops: walks the unpinned bishops in
/// ascending square order and, per bishop, the attacked enemy-held target
/// squares in ascending order, resolving each captured piece from the board.
pub struct BishopAttackIterator<'a> {
    board: &'a Board,
    piece: u32,
    bishops: u64,
    occ: u64,
    attack: u64,
    opp: u64,
}

impl<'a> BishopAttackIterator<'a> {
    /// The producer reads a well-formed board, its piece tag and occupancy
    /// match that board, and the destination bitboards stay inside the
    /// enemy-held mask — which is what lets every capture resolve its victim.
    pub closed spec fn wf(self) -> bool {
        &&& self.board.wf()
        &&& self.piece == (BISHOP + self.board.ctm) as u32
        &&& self.occ == self.board.util@[ALL_PIECES as int]
        &&& self.attack & !self.opp == 0
        &&& self.opp & !self.board.util@[1 - self.board.ctm as int] == 0
    }

    /// The moves this producer has not yet yielded.
    pub closed spec fn pending(self) -> Seq<Move> {
        if self.bishops == 0 {
            Seq::empty()
        } else {
            moves_for(cap_mk(*self.board, self.piece), low_bit(self.bishops), self.attack)
                + gen_list(
                clear_bit(self.bishops, low_bit(self.bishops)),
                bishop_cap_dests(self.occ, self.opp),
                cap_mk(*self.board, self.piece),
                0,
            )
        }
    }

    /// Builds the producer; its whole output is the capture list of `b` under
    /// the two masks.
    pub fn new(b: &Board, pinned: u64, target: u64) -> (it: BishopAttackIterator)
        requires
            b.wf(),
        ensures
            it.wf(),
            it.pending() == bishop_cap_list(*b, pinned, target),
    {
        let bishops = b.pieces[BISHOP + b.ctm] & !pinned;
        proof {
            if b.ctm == 0 {
                assert(0usize ^ 1 == 1) by (bit_vector);
            } else {
                assert(1usize ^ 1 == 0) by (bit_vector);
            }
        }
        let opp = b.util[b.ctm ^ 1] & target;
        let occ = b.util[ALL_PIECES];
        let from = (bishops.trailing_zeros() as usize) % 64;
        let attack = bishop_moves(occ, from) & opp;
        proof {
            crate::bits::lemma_submask(bishop_att(occ, from as u64), opp);
            crate::bits::lemma_submask(b.util@[1 - b.ctm as int], target);
        }
        let it = BishopAttackIterator {
            board: b,
            piece: (BISHOP + b.ctm) as u32,
            bishops,
            occ,
            attack,
            opp,
        };
        proof {
            if bishops == 0 {
                lemma_gen_list_empty(bishop_cap_dests(occ, opp), cap_mk(*b, it.piece));
            } else {
                lemma_low_bit(bishops);
                lemma_gen_list_head(bishops, bishop_cap_dests(occ, opp), cap_mk(*b, it.piece));
            }
        }
        it
    }

    /// Yields the head of `pending`, or nothing once the producer is
    /// exhausted; consuming a move removes exactly it from `pending`. Every
    /// capture resolves its victim, which the board invariants guarantee.
    pub fn next_attack(&mut self) -> (r: Option<Move>)
        requires
            old(self).wf(),
        ensures
            final(self).wf(),
            old(self).pending().len() == 0 ==> r is None && final(self).pending() == old(self).pending(),
            old(self).pending().len() > 0 ==> r == Some(old(self).pending()[0]) && final(self).pending() == old(self).pending().drop_first(),
    {
        if self.bishops == 0 {
            return None;
        }
        while self.attack == 0
            invariant
                self.wf(),
                self.bishops != 0,
                self.board == old(self).board,
                self.occ == old(self).occ,
                self.opp == old(self).opp,
                self.piece == old(self).piece,
                self.pending() == old(self).pending(),
            decreases self.bishops,
        {
            proof {
                lemma_low_bit(self.bishops);
                crate::bits::lemma_bits_zero(0);
                assert(moves_for(cap_mk(*self.board, self.piece), low_bit(self.bishops), 0u64)
                    =~= Seq::<Move>::empty());
            }
            let rest = self.bishops & (self.bishops - 1);
            if rest == 0 {
                proof {
                    lemma_gen_list_empty(
                        bishop_cap_dests(self.occ, self.opp),
                        cap_mk(*self.board, self.piece),
                    );
                }
                return None;
            }
            self.bishops = rest;
            let from: usize = self.bishops.trailing_zeros() as usize;
            proof {
                lemma_low_bit(self.bishops);
            }
            self.attack = bishop_moves(self.occ, from) & self.opp;
            proof {
                crate::bits::lemma_submask(bishop_att(self.occ, from as u64), self.opp);
                lemma_gen_list_head(
                    self.bishops,
                    bishop_cap_dests(self.occ, self.opp),
                    cap_mk(*self.board, self.piece),
                );
            }
        }
        let from: u32 = self.bishops.trailing_zeros();
        let to: u32 = self.attack.trailing_zeros();
        proof {
            lemma_low_bit(self.bishops);
            lemma_low_bit(self.attack);
            lemma_moves_for_head(
                cap_mk(*self.board, self.piece),
                low_bit(self.bishops),
                self.attack,
            );
            // the destination holds an enemy piece: attack lies inside opp,
            // opp inside the enemy aggregate
            lemma_bit_and(self.attack, !self.opp);
            lemma_bit_not(self.opp);
            lemma_bit_zero();
            assert(bit(self.attack & !self.opp, to as u64) == false);
            assert(bit(self.opp, to as u64));
            lemma_bit_and(self.opp, !self.board.util@[1 - self.board.ctm as int]);
            lemma_bit_not(self.board.util@[1 - self.board.ctm as int]);
            assert(bit(self.opp & !self.board.util@[1 - self.board.ctm as int], to as u64)
                == false);
            assert(bit(self.board.util@[1 - self.board.ctm as int], to as u64));
            self.board.lemma_occ_member(1 - self.board.ctm as int, to as u64);
            assert(self.pending() =~= seq![
                cap_mk(*self.board, self.piece)(low_bit(self.bishops), low_bit(self.attack)),
            ]
                + (moves_for(
                    cap_mk(*self.board, self.piece),
                    low_bit(self.bishops),
                    clear_bit(self.attack, low_bit(self.attack)),
                ) + gen_list(
                    clear_bit(self.bishops, low_bit(self.bishops)),
                    bishop_cap_dests(self.occ, self.opp),
                    cap_mk(*self.board, self.piece),
                    0,
                )));
        }
        proof {
            crate::bits::lemma_submask_trans(
                self.attack,
                (self.attack - 1) as u64,
                self.opp,
            );
        }
        self.attack = self.attack & (self.attack - 1);
        proof {
            assert(old(self).pending().drop_first() =~= self.pending());
        }
        let xpiece = get_xpiece(self.board, to).unwrap();
        Some(Move::new(from, to, self.piece, xpiece, MoveType::Cap))
    }
}

/// Every generated quiet move starts on a square the source board's
/// side-to-move bishop bitboard occupies (and the pinned mask does not), and
/// lands on a square that is unoccupied on the source board and lies in the
/// target mask; its captured-piece field is empty and its kind is quiet.
pub proof fn lemma_bishop_quiet_sound(b: Board, pinned: u64, target: u64)
    requires
        b.ctm == 0 || b.ctm == 1,
    ensures
        forall|k: int|
            0 <= k < bishop_quiet_list(b, pinned, target).len() ==> {
                let m = #[trigger] bishop_quiet_list(b, pinned, target)[k];
                &&& m.from < 64 && m.to < 64
                &&& bit(b.pieces@[BISHOP + b.ctm as int], m.from as u64)
                &&& !bit(pinned, m.from as u64)
                &&& !bit(b.util@[ALL_PIECES as int], m.to as u64)
                &&& bit(target, m.to as u64)
                &&& m.piece == (BISHOP + b.ctm) as u32
                &&& m.xpiece == 0
                &&& m.move_type == MoveType::Quiet
            },
{
    let origins = bishop_origins(b, pinned);
    let occ = b.util@[ALL_PIECES as int];
    let dests = bishop_quiet_dests(occ, target);
    let mk = quiet_mk((BISHOP + b.ctm) as u32);
    let s = gen_list(origins, dests, mk, 0);
    lemma_gen_list_elems(origins, dests, mk, 0);
    assert forall|k: int| 0 <= k < s.len() implies {
        let m = #[trigger] s[k];
        &&& m.from < 64 && m.to < 64
        &&& bit(b.pieces@[BISHOP + b.ctm as int], m.from as u64)
        &&& !bit(pinned, m.from as u64)
        &&& !bit(occ, m.to as u64)
        &&& bit(target, m.to as u64)
        &&& m.piece == (BISHOP + b.ctm) as u32
        &&& m.xpiece == 0
        &&& m.move_type == MoveType::Quiet
    } by {
        assert(from_candidate(origins, dests, mk, 0, s[k]));
        let (o, t) = choose|o: u64, t: u64|
            0 <= o < 64 && bit(origins, o) && bit(dests(o), t) && s[k] == #[trigger] mk(o, t);
        lemma_bit_not(pinned);
        lemma_bit_and(b.pieces@[BISHOP + b.ctm as int], !pinned);
        lemma_bit_not(occ);
        lemma_bit_and(bishop_att(occ, o), !occ);
        lemma_bit_and(bishop_att(occ, o) & !occ, target);
    }
}

/// Every generated capture starts on a square the source board's side-to-move
/// bishop bitboard occupies (and the pinned mask does not), and lands, inside
/// the target mask, on a square held by an enemy piece — never a friendly
/// piece, never an empty square — and the move's captured-piece field is
/// exactly the piece standing there.
pub proof fn lemma_bishop_cap_sound(b: Board, pinned: u64, target: u64)
    requires
        b.wf(),
    ensures
        forall|k: int|
            0 <= k < bishop_cap_list(b, pinned, target).len() ==> {
                let m = #[trigger] bishop_cap_list(b, pinned, target)[k];
                &&& m.from < 64 && m.to < 64
                &&& bit(b.pieces@[BISHOP + b.ctm as int], m.from as u64)
                &&& !bit(pinned, m.from as u64)
                &&& bit(b.util@[1 - b.ctm as int], m.to as u64)
                &&& !bit(b.util@[b.ctm as int], m.to as u64)
                &&& bit(target, m.to as u64)
                &&& m.xpiece < 12 && m.xpiece as int % 2 == 1 - b.ctm as int
                &&& bit(b.pieces@[m.xpiece as int], m.to as u64)
                &&& occupant(b, m.to as u64) == m.xpiece as int
                &&& m.piece == (BISHOP + b.ctm) as u32
                &&& m.move_type == MoveType::Cap
            },
{
    let origins = bishop_origins(b, pinned);
    let occ = b.util@[ALL_PIECES as int];
    let xocc = b.util@[1 - b.ctm as int];
    let opp = xocc & target;
    let dests = bishop_cap_dests(occ, opp);
    let mk = cap_mk(b, (BISHOP + b.ctm) as u32);
    let s = gen_list(origins, dests, mk, 0);
    lemma_gen_list_elems(origins, dests, mk, 0);
    assert forall|k: int| 0 <= k < s.len() implies {
        let m = #[trigger] s[k];
        &&& m.from < 64 && m.to < 64
        &&& bit(b.pieces@[BISHOP + b.ctm as int], m.from as u64)
        &&& !bit(pinned, m.from as u64)
        &&& bit(xocc, m.to as u64)
        &&& !bit(b.util@[b.ctm as int], m.to as u64)
        &&& bit(target, m.to as u64)
        &&& m.xpiece < 12 && m.xpiece as int % 2 == 1 - b.ctm as int
        &&& bit(b.pieces@[m.xpiece as int], m.to as u64)
        &&& occupant(b, m.to as u64) == m.xpiece as int
        &&& m.piece == (BISHOP + b.ctm) as u32
        &&& m.move_type == MoveType::Cap
    } by {
        assert(from_candidate(origins, dests, mk, 0, s[k]));
        let (o, t) = choose|o: u64, t: u64|
            0 <= o < 64 && bit(origins, o) && bit(dests(o), t) && s[k] == #[trigger] mk(o, t);
        lemma_bit_not(pinned);
        lemma_bit_and(b.pieces@[BISHOP + b.ctm as int], !pinned);
        lemma_bit_and(bishop_att(occ, o), opp);
        lemma_bit_and(xocc, target);
        // the destination's occupant exists, is unique, and is an enemy man
        b.lemma_occ_member(1 - b.ctm as int, t);
        let p = choose|p: int| 0 <= p < 12 && p % 2 == 1 - b.ctm as int && bit(
            #[trigger] b.pieces@[p],
            t,
        );
        assert(exists|q: int| 0 <= q < 12 && bit(#[trigger] b.pieces@[q], t));
        let q = choose|q: int| 0 <= q < 12 && bit(#[trigger] b.pieces@[q], t);
        lemma_bit_zero();
        if q != p {
            if q < p {
                lemma_bit_and(b.pieces@[q], b.pieces@[p]);
                assert(bit(b.pieces@[q] & b.pieces@[p], t));
            } else {
                lemma_bit_and(b.pieces@[p], b.pieces@[q]);
                assert(bit(b.pieces@[p] & b.pieces@[q], t));
            }
            assert(false);
        }
        assert(occupant(b, t) == p);
        // a friendly piece on the destination would put the square in both
        // colour aggregates, which are disjoint
        lemma_bit_and(b.util@[0], b.util@[1]);
        assert(!bit(b.util@[0] & b.util@[1], t));
        assert(!bit(b.util@[b.ctm as int], t));
    }
}

/// With the empty target mask every producer yields nothing, whatever the
/// board holds.
pub proof fn lemma_empty_target(b: Board, pinned: u64)
    requires
        b.ctm == 0 || b.ctm == 1,
    ensures
        bishop_quiet_list(b, pinned, NO_SQUARES).len() == 0,
        bishop_cap_list(b, pinned, NO_SQUARES).len() == 0,
{
    crate::bits::lemma_and_zero();
    lemma_bit_zero();
    let occ = b.util@[ALL_PIECES as int];
    let qs = bishop_quiet_list(b, pinned, NO_SQUARES);
    if qs.len() > 0 {
        lemma_gen_list_elems(
            bishop_origins(b, pinned),
            bishop_quiet_dests(occ, NO_SQUARES),
            quiet_mk((BISHOP + b.ctm) as u32),
            0,
        );
        assert(from_candidate(
            bishop_origins(b, pinned),
            bishop_quiet_dests(occ, NO_SQUARES),
            quiet_mk((BISHOP + b.ctm) as u32),
            0,
            qs[0],
        ));
        assert(false);
    }
    let cs = bishop_cap_list(b, pinned, NO_SQUARES);
    if cs.len() > 0 {
        lemma_gen_list_elems(
            bishop_origins(b, pinned),
            bishop_cap_dests(occ, b.util@[1 - b.ctm as int] & NO_SQUARES),
            cap_mk(b, (BISHOP + b.ctm) as u32),
            0,
        );
        assert(from_candidate(
            bishop_origins(b, pinned),
            bishop_cap_dests(occ, b.util@[1 - b.ctm as int] & NO_SQUARES),
            cap_mk(b, (BISHOP + b.ctm) as u32),
            0,
            cs[0],
        ));
        assert(false);
    }
}

/// The target mask only filters destinations: a move is generated under
/// `target` exactly when it is generated under the full mask and its
/// destination lies in `target` — so the full mask leaves generation
/// unrestricted by target.
pub proof fn lemma_target_filters(b: Board, pinned: u64, target: u64)
    requires
        b.ctm == 0 || b.ctm == 1,
    ensures
        forall|m: Move|
            #[trigger] bishop_quiet_list(b, pinned, target).contains(m) <==> bishop_quiet_list(
                b,
                pinned,
                ALL_SQUARES,
            ).contains(m) && bit(target, m.to as u64),
        forall|m: Move|
            #[trigger] bishop_cap_list(b, pinned, target).contains(m) <==> bishop_cap_list(
                b,
                pinned,
                ALL_SQUARES,
            ).contains(m) && bit(target, m.to as u64),
{
    let origins = bishop_origins(b, pinned);
    let occ = b.util@[ALL_PIECES as int];
    let xocc = b.util@[1 - b.ctm as int];
    let qmk = quiet_mk((BISHOP + b.ctm) as u32);
    let cmk = cap_mk(b, (BISHOP + b.ctm) as u32);
    crate::bits::lemma_and_all();
    lemma_gen_list_elems(origins, bishop_quiet_dests(occ, target), qmk, 0);
    lemma_gen_list_elems(origins, bishop_quiet_dests(occ, ALL_SQUARES), qmk, 0);
    lemma_gen_list_elems(origins, bishop_cap_dests(occ, xocc & target), cmk, 0);
    lemma_gen_list_elems(origins, bishop_cap_dests(occ, xocc & ALL_SQUARES), cmk, 0);
    assert forall|m: Move|
        #[trigger] bishop_quiet_list(b, pinned, target).contains(m) implies bishop_quiet_list(
        b,
        pinned,
        ALL_SQUARES,
    ).contains(m) && bit(target, m.to as u64) by {
        let k = choose|k: int|
            0 <= k < bishop_quiet_list(b, pinned, target).len() && #[trigger] bishop_quiet_list(
                b,
                pinned,
                target,
            )[k] == m;
        assert(from_candidate(origins, bishop_quiet_dests(occ, target), qmk, 0, m));
        let (o, t) = choose|o: u64, t: u64|
            0 <= o < 64 && bit(origins, o) && bit(bishop_quiet_dests(occ, target)(o), t) && m
                == #[trigger] qmk(o, t);
        lemma_bit_and(bishop_att(occ, o) & !occ, target);
        lemma_bit_and(bishop_att(occ, o) & !occ, ALL_SQUARES);
        assert(bit(bishop_quiet_dests(occ, ALL_SQUARES)(o), t));
    }
    assert forall|m: Move|
        bishop_quiet_list(b, pinned, ALL_SQUARES).contains(m) && bit(
            target,
            m.to as u64,
        ) implies #[trigger] bishop_quiet_list(b, pinned, target).contains(m) by {
        let k = choose|k: int|
            0 <= k < bishop_quiet_list(b, pinned, ALL_SQUARES).len()
                && #[trigger] bishop_quiet_list(b, pinned, ALL_SQUARES)[k] == m;
        assert(from_candidate(origins, bishop_quiet_dests(occ, ALL_SQUARES), qmk, 0, m));
        let (o, t) = choose|o: u64, t: u64|
            0 <= o < 64 && bit(origins, o) && bit(bishop_quiet_dests(occ, ALL_SQUARES)(o), t) && m
                == #[trigger] qmk(o, t);
        lemma_bit_and(bishop_att(occ, o) & !occ, target);
        lemma_bit_and(bishop_att(occ, o) & !occ, ALL_SQUARES);
        assert(m.to as u64 == t);
        assert(bit(bishop_quiet_dests(occ, target)(o), t));
    }
    assert forall|m: Move|
        #[trigger] bishop_cap_list(b, pinned, target).contains(m) implies bishop_cap_list(
        b,
        pinned,
        ALL_SQUARES,
    ).contains(m) && bit(target, m.to as u64) by {
        let k = choose|k: int|
            0 <= k < bishop_cap_list(b, pinned, target).len() && #[trigger] bishop_cap_list(
                b,
                pinned,
                target,
            )[k] == m;
        assert(from_candidate(origins, bishop_cap_dests(occ, xocc & target), cmk, 0, m));
        let (o, t) = choose|o: u64, t: u64|
            0 <= o < 64 && bit(origins, o) && bit(bishop_cap_dests(occ, xocc & target)(o), t) && m
                == #[trigger] cmk(o, t);
        lemma_bit_and(bishop_att(occ, o), xocc & target);
        lemma_bit_and(bishop_att(occ, o), xocc & ALL_SQUARES);
        lemma_bit_and(xocc, target);
        lemma_bit_and(xocc, ALL_SQUARES);
        assert(bit(bishop_cap_dests(occ, xocc & ALL_SQUARES)(o), t));
    }
    assert forall|m: Move|
        bishop_cap_list(b, pinned, ALL_SQUARES).contains(m) && bit(
            target,
            m.to as u64,
        ) implies #[trigger] bishop_cap_list(b, pinned, target).contains(m) by {
        let k = choose|k: int|
            0 <= k < bishop_cap_list(b, pinned, ALL_SQUARES).len() && #[trigger] bishop_cap_list(
                b,
                pinned,
                ALL_SQUARES,
            )[k] == m;
        assert(from_candidate(origins, bishop_cap_dests(occ, xocc & ALL_SQUARES), cmk, 0, m));
        let (o, t) = choose|o: u64, t: u64|
            0 <= o < 64 && bit(origins, o) && bit(bishop_cap_dests(occ, xocc & ALL_SQUARES)(o), t)
                && m == #[trigger] cmk(o, t);
        lemma_bit_and(bishop_att(occ, o), xocc & target);
        lemma_bit_and(bishop_att(occ, o), xocc & ALL_SQUARES);
        lemma_bit_and(xocc, target);
        lemma_bit_and(xocc, ALL_SQUARES);
        assert(m.to as u64 == t);
        assert(bit(bishop_cap_dests(occ, xocc & target)(o), t));
    }
}

/// Changing the pinned mask at one square `sp` changes only that square's
/// contribution: every move from another origin is generated under the one
/// mask exactly when it is generated under the other.
pub proof fn lemma_pinned_local(b: Board, p1: u64, p2: u64, sp: u64, target: u64)
    requires
        b.ctm == 0 || b.ctm == 1,
        forall|j: u64| j < 64 && j != sp ==> bit(p1, j) == bit(p2, j),
    ensures
        forall|m: Move|
            m.from as u64 != sp ==> (#[trigger] bishop_quiet_list(b, p1, target).contains(m)
                <==> bishop_quiet_list(b, p2, target).contains(m)),
        forall|m: Move|
            m.from as u64 != sp ==> (#[trigger] bishop_cap_list(b, p1, target).contains(m)
                <==> bishop_cap_list(b, p2, target).contains(m)),
{
    let occ = b.util@[ALL_PIECES as int];
    let xocc = b.util@[1 - b.ctm as int];
    let qmk = quiet_mk((BISHOP + b.ctm) as u32);
    let cmk = cap_mk(b, (BISHOP + b.ctm) as u32);
    let bb = b.pieces@[BISHOP + b.ctm as int];
    lemma_bit_not(p1);
    lemma_bit_not(p2);
    lemma_bit_and(bb, !p1);
    lemma_bit_and(bb, !p2);
    lemma_gen_list_elems(bishop_origins(b, p1), bishop_quiet_dests(occ, target), qmk, 0);
    lemma_gen_list_elems(bishop_origins(b, p2), bishop_quiet_dests(occ, target), qmk, 0);
    lemma_gen_list_elems(bishop_origins(b, p1), bishop_cap_dests(occ, xocc & target), cmk, 0);
    lemma_gen_list_elems(bishop_origins(b, p2), bishop_cap_dests(occ, xocc & target), cmk, 0);
    assert forall|m: Move| m.from as u64 != sp implies (#[trigger] bishop_quiet_list(
        b,
        p1,
        target,
    ).contains(m) <==> bishop_quiet_list(b, p2, target).contains(m)) by {
        if bishop_quiet_list(b, p1, target).contains(m) {
            let k = choose|k: int|
                0 <= k < bishop_quiet_list(b, p1, target).len() && #[trigger] bishop_quiet_list(
                    b,
                    p1,
                    target,
                )[k] == m;
            assert(from_candidate(bishop_origins(b, p1), bishop_quiet_dests(occ, target), qmk, 0, m));
            let (o, t) = choose|o: u64, t: u64|
                0 <= o < 64 && bit(bishop_origins(b, p1), o) && bit(
                    bishop_quiet_dests(occ, target)(o),
                    t,
                ) && m == #[trigger] qmk(o, t);
            assert(o != sp);
            assert(bit(bishop_origins(b, p2), o));
        }
        if bishop_quiet_list(b, p2, target).contains(m) {
            let k = choose|k: int|
                0 <= k < bishop_quiet_list(b, p2, target).len() && #[trigger] bishop_quiet_list(
                    b,
                    p2,
                    target,
                )[k] == m;
            assert(from_candidate(bishop_origins(b, p2), bishop_quiet_dests(occ, target), qmk, 0, m));
            let (o, t) = choose|o: u64, t: u64|
                0 <= o < 64 && bit(bishop_origins(b, p2), o) && bit(
                    bishop_quiet_dests(occ, target)(o),
                    t,
                ) && m == #[trigger] qmk(o, t);
            assert(o != sp);
            assert(bit(bishop_origins(b, p1), o));
        }
    }
    assert forall|m: Move| m.from as u64 != sp implies (#[trigger] bishop_cap_list(
        b,
        p1,
        target,
    ).contains(m) <==> bishop_cap_list(b, p2, target).contains(m)) by {
        if bishop_cap_list(b, p1, target).contains(m) {
            let k = choose|k: int|
                0 <= k < bishop_cap_list(b, p1, target).len() && #[trigger] bishop_cap_list(
                    b,
                    p1,
                    target,
                )[k] == m;
            assert(from_candidate(
                bishop_origins(b, p1),
                bishop_cap_dests(occ, xocc & target),
                cmk,
                0,
                m,
            ));
            let (o, t) = choose|o: u64, t: u64|
                0 <= o < 64 && bit(bishop_origins(b, p1), o) && bit(
                    bishop_cap_dests(occ, xocc & target)(o),
                    t,
                ) && m == #[trigger] cmk(o, t);
            assert(o != sp);
            assert(bit(bishop_origins(b, p2), o));
        }
        if bishop_cap_list(b, p2, target).contains(m) {
            let k = choose|k: int|
                0 <= k < bishop_cap_list(b, p2, target).len() && #[trigger] bishop_cap_list(
                    b,
                    p2,
                    target,
                )[k] == m;
            assert(from_candidate(
                bishop_origins(b, p2),
                bishop_cap_dests(occ, xocc & target),
                cmk,
                0,
                m,
            ));
            let (o, t) = choose|o: u64, t: u64|
                0 <= o < 64 && bit(bishop_origins(b, p2), o) && bit(
                    bishop_cap_dests(occ, xocc & target)(o),
                    t,
                ) && m == #[trigger] cmk(o, t);
            assert(o != sp);
            assert(bit(bishop_origins(b, p1), o));
        }
    }
}

/// A producer's whole output holds no (origin, destination) pair twice, and
/// holds exactly as many moves as the per-origin destination sets fixed at
/// construction hold bits, summed over the origins: nothing is dropped or
/// duplicated across origin advances.
pub proof fn lemma_bishop_no_dup_and_count(b: Board, pinned: u64, target: u64)
    requires
        b.ctm == 0 || b.ctm == 1,
    ensures
        forall|k1: int, k2: int|
            0 <= k1 < k2 < bishop_quiet_list(b, pinned, target).len() ==> !(#[trigger] bishop_quiet_list(
                b,
                pinned,
                target,
            )[k1].from == #[trigger] bishop_quiet_list(b, pinned, target)[k2].from
                && bishop_quiet_list(b, pinned, target)[k1].to == bishop_quiet_list(
                b,
                pinned,
                target,
            )[k2].to),
        bishop_quiet_list(b, pinned, target).len() == gen_count(
            bishop_origins(b, pinned),
            bishop_quiet_dests(b.util@[ALL_PIECES as int], target),
            0,
        ),
        forall|k1: int, k2: int|
            0 <= k1 < k2 < bishop_cap_list(b, pinned, target).len() ==> !(#[trigger] bishop_cap_list(
                b,
                pinned,
                target,
            )[k1].from == #[trigger] bishop_cap_list(b, pinned, target)[k2].from
                && bishop_cap_list(b, pinned, target)[k1].to == bishop_cap_list(
                b,
                pinned,
                target,
            )[k2].to),
        bishop_cap_list(b, pinned, target).len() == gen_count(
            bishop_origins(b, pinned),
            bishop_cap_dests(
                b.util@[ALL_PIECES as int],
                b.util@[1 - b.ctm as int] & target,
            ),
            0,
        ),
{
    let origins = bishop_origins(b, pinned);
    let occ = b.util@[ALL_PIECES as int];
    let xocc = b.util@[1 - b.ctm as int];
    let qmk = quiet_mk((BISHOP + b.ctm) as u32);
    let cmk = cap_mk(b, (BISHOP + b.ctm) as u32);
    assert(forall|o1: u64, t1: u64, o2: u64, t2: u64|
        o1 < 64 && t1 < 64 && o2 < 64 && t2 < 64 && #[trigger] qmk(o1, t1) == #[trigger] qmk(
            o2,
            t2,
        ) ==> o1 == o2 && t1 == t2);
    assert(forall|o1: u64, t1: u64, o2: u64, t2: u64|
        o1 < 64 && t1 < 64 && o2 < 64 && t2 < 64 && #[trigger] cmk(o1, t1) == #[trigger] cmk(
            o2,
            t2,
        ) ==> o1 == o2 && t1 == t2);
    lemma_gen_list_distinct(origins, bishop_quiet_dests(occ, target), qmk, 0);
    lemma_gen_list_len(origins, bishop_quiet_dests(occ, target), qmk, 0);
    lemma_gen_list_elems(origins, bishop_quiet_dests(occ, target), qmk, 0);
    lemma_gen_list_distinct(origins, bishop_cap_dests(occ, xocc & target), cmk, 0);
    lemma_gen_list_len(origins, bishop_cap_dests(occ, xocc & target), cmk, 0);
    lemma_gen_list_elems(origins, bishop_cap_dests(occ, xocc & target), cmk, 0);
    let qs = bishop_quiet_list(b, pinned, target);
    assert forall|k1: int, k2: int| 0 <= k1 < k2 < qs.len() implies !(#[trigger] qs[k1].from
        == #[trigger] qs[k2].from && qs[k1].to == qs[k2].to) by {
        assert(from_candidate(origins, bishop_quiet_dests(occ, target), qmk, 0, qs[k1]));
        assert(from_candidate(origins, bishop_quiet_dests(occ, target), qmk, 0, qs[k2]));
        let (o1, t1) = choose|o1: u64, t1: u64|
            0 <= o1 < 64 && bit(origins, o1) && bit(bishop_quiet_dests(occ, target)(o1), t1)
                && qs[k1] == #[trigger] qmk(o1, t1);
        let (o2, t2) = choose|o2: u64, t2: u64|
            0 <= o2 < 64 && bit(origins, o2) && bit(bishop_quiet_dests(occ, target)(o2), t2)
                && qs[k2] == #[trigger] qmk(o2, t2);
        assert(qs[k1] != qs[k2]);
        if qs[k1].from == qs[k2].from && qs[k1].to == qs[k2].to {
            assert(o1 == o2 && t1 == t2);
            assert(false);
        }
    }
    let cs = bishop_cap_list(b, pinned, target);
    assert forall|k1: int, k2: int| 0 <= k1 < k2 < cs.len() implies !(#[trigger] cs[k1].from
        == #[trigger] cs[k2].from && cs[k1].to == cs[k2].to) by {
        assert(from_candidate(origins, bishop_cap_dests(occ, xocc & target), cmk, 0, cs[k1]));
        assert(from_candidate(origins, bishop_cap_dests(occ, xocc & target), cmk, 0, cs[k2]));
        let (o1, t1) = choose|o1: u64, t1: u64|
            0 <= o1 < 64 && bit(origins, o1) && bit(
                bishop_cap_dests(occ, xocc & target)(o1),
                t1,
            ) && cs[k1] == #[trigger] cmk(o1, t1);
        let (o2, t2) = choose|o2: u64, t2: u64|
            0 <= o2 < 64 && bit(origins, o2) && bit(
                bishop_cap_dests(occ, xocc & target)(o2),
                t2,
            ) && cs[k2] == #[trigger] cmk(o2, t2);
        assert(cs[k1] != cs[k2]);
        if cs[k1].from == cs[k2].from && cs[k1].to == cs[k2].to {
            assert(o1 == o2 && t1 == t2);
            assert(false);
        }
    }
}

} // verus!
