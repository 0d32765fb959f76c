//! The board value: twelve per-piece-colour bitboards, derived aggregate
//! occupancies, side to move, castling rights, en-passant target and the
//! running accumulators that outside collaborators maintain. The generator
//! only ever reads a board; new positions are new values.

use vstd::prelude::*;
use crate::bits::bit;

verus! {

/// Index of the white pawn bitboard; a colour's piece sits at its base index
/// plus the colour (white 0, black 1).
pub const PAWN: usize = 0;

pub const KNIGHT: usize = 2;

pub const ROOK: usize = 4;

pub const BISHOP: usize = 6;

pub const QUEEN: usize = 8;

pub const KING: usize = 10;

/// Index of the all-occupancy aggregate in `util`; indices 0 and 1 hold the
/// white and black aggregates.
pub const ALL_PIECES: usize = 2;

/// A position. `pieces[2 * kind + colour]` holds one bitboard per piece type and
/// colour; `util` holds the white, black and joint occupancy aggregates; `ctm`
/// is the colour to move (white 0, black 1); `castle_state` packs the four
/// castling rights as bits `KQkq`; `ep` is the en-passant target square, 64 when
/// there is none; `hash`, `mg_value` and `eg_value` are accumulators kept by the
/// hashing and evaluation collaborators, not by this core.
#[derive(Clone, Copy, Debug)]
pub struct Board {
    pub pieces: [u64; 12],
    pub util: [u64; 3],
    pub ctm: usize,
    pub castle_state: u8,
    pub ep: usize,
    pub halfmove: usize,
    pub hash: u64,
    pub mg_value: i32,
    pub eg_value: i32,
}

impl Board {
    /// The union of one colour's six piece bitboards.
    pub open spec fn colour_occ(self, c: int) -> u64 {
        self.pieces@[0 + c] | self.pieces@[2 + c] | self.pieces@[4 + c] | self.pieces@[6 + c]
            | self.pieces@[8 + c] | self.pieces@[10 + c]
    }

    /// The board invariants the generator relies on: the side to move is a
    /// colour; each aggregate is the union of its colour's piece bitboards and
    /// the joint aggregate their union; the two colours are disjoint; no square
    /// holds two pieces; each king bitboard has exactly one set bit; the
    /// en-passant target is absent or on the rank consistent with the side to
    /// move.
    pub open spec fn wf(self) -> bool {
        &&& self.ctm == 0 || self.ctm == 1
        &&& self.util@[0] == self.colour_occ(0)
        &&& self.util@[1] == self.colour_occ(1)
        &&& self.util@[2] == self.util@[0] | self.util@[1]
        &&& self.util@[0] & self.util@[1] == 0
        &&& forall|i: int, j: int| 0 <= i < j < 12 ==> self.pieces@[i] & self.pieces@[j] == 0
        &&& self.pieces@[10] != 0 && self.pieces@[10] & ((self.pieces@[10] - 1) as u64) == 0
        &&& self.pieces@[11] != 0 && self.pieces@[11] & ((self.pieces@[11] - 1) as u64) == 0
        &&& self.ep == 64 || (self.ctm == 1 && 16 <= self.ep < 24) || (self.ctm == 0 && 40
            <= self.ep < 48)
    }

    /// On a well-formed board, a square of a colour's aggregate is covered by
    /// one of that colour's piece bitboards.
    pub proof fn lemma_occ_member(self, c: int, s: u64)
        requires
            self.wf(),
            0 <= c < 2,
            bit(self.util@[c], s),
        ensures
            exists|p: int| 0 <= p < 12 && p % 2 == c && bit(#[trigger] self.pieces@[p], s),
    {
        crate::bits::lemma_bit_or(
            self.pieces@[0 + c] | self.pieces@[2 + c] | self.pieces@[4 + c] | self.pieces@[6 + c]
                | self.pieces@[8 + c],
            self.pieces@[10 + c],
        );
        crate::bits::lemma_bit_or(
            self.pieces@[0 + c] | self.pieces@[2 + c] | self.pieces@[4 + c] | self.pieces@[6 + c],
            self.pieces@[8 + c],
        );
        crate::bits::lemma_bit_or(
            self.pieces@[0 + c] | self.pieces@[2 + c] | self.pieces@[4 + c],
            self.pieces@[6 + c],
        );
        crate::bits::lemma_bit_or(self.pieces@[0 + c] | self.pieces@[2 + c], self.pieces@[4 + c]);
        crate::bits::lemma_bit_or(self.pieces@[0 + c], self.pieces@[2 + c]);
        assert(bit(self.pieces@[0 + c], s) || bit(self.pieces@[2 + c], s) || bit(
            self.pieces@[4 + c],
            s,
        ) || bit(self.pieces@[6 + c], s) || bit(self.pieces@[8 + c], s) || bit(
            self.pieces@[10 + c],
            s,
        ));
        if bit(self.pieces@[0 + c], s) {
            assert((0 + c) % 2 == c);
        } else if bit(self.pieces@[2 + c], s) {
            assert((2 + c) % 2 == c);
        } else if bit(self.pieces@[4 + c], s) {
            assert((4 + c) % 2 == c);
        } else if bit(self.pieces@[6 + c], s) {
            assert((6 + c) % 2 == c);
        } else if bit(self.pieces@[8 + c], s) {
            assert((8 + c) % 2 == c);
        } else {
            assert((10 + c) % 2 == c);
        }
    }
}

} // verus!
