//! The move record: one ply as a compact value with full-field equality and a
//! rendering to the long-algebraic square-to-square text used by engine
//! protocols.

use vstd::prelude::*;
use vstd::string::StringExecFns;

verus! {

/// The kind of a move: a quiet relocation, a capture, a double pawn push, an
/// en-passant capture, castling to either side, or a promotion (the promoted
/// piece rides in the move's extra-piece field).
#[derive(Clone, Copy, PartialEq, Eq, Structural, Debug)]
pub enum MoveType {
    Quiet,
    Double,
    Cap,
    Ep,
    CastleKs,
    CastleQs,
    Promo,
    PromoCap,
}

/// One ply: origin and destination square (0..64), the moving piece, the
/// captured or promoted piece (0 when none applies), and the move kind.
/// Compared by full field equality.
#[derive(Clone, Copy, PartialEq, Eq, Structural, Debug)]
pub struct Move {
    pub from: u32,
    pub to: u32,
    pub piece: u32,
    pub xpiece: u32,
    pub move_type: MoveType,
}

/// The file letter ('a'..'h') of a square.
pub open spec fn file_char(sq: u64) -> char {
    let f = sq % 8;
    if f == 0 {
        'a'
    } else if f == 1 {
        'b'
    } else if f == 2 {
        'c'
    } else if f == 3 {
        'd'
    } else if f == 4 {
        'e'
    } else if f == 5 {
        'f'
    } else if f == 6 {
        'g'
    } else {
        'h'
    }
}

/// The rank digit ('1'..'8') of a square.
pub open spec fn rank_char(sq: u64) -> char {
    let r = (sq / 8) % 8;
    if r == 0 {
        '1'
    } else if r == 1 {
        '2'
    } else if r == 2 {
        '3'
    } else if r == 3 {
        '4'
    } else if r == 4 {
        '5'
    } else if r == 5 {
        '6'
    } else if r == 6 {
        '7'
    } else {
        '8'
    }
}

/// The long-algebraic name of a square: file letter then rank digit.
pub open spec fn sq_name(sq: u64) -> Seq<char> {
    seq![file_char(sq), rank_char(sq)]
}

fn file_str(f: usize) -> (r: &'static str)
    requires
        f < 8,
    ensures
        r@ == seq![file_char(f as u64)],
{
    let s: &'static str = match f {
        0 => "a",
        1 => "b",
        2 => "c",
        3 => "d",
        4 => "e",
        5 => "f",
        6 => "g",
        _ => "h",
    };
    proof {
        reveal_strlit("a");
        reveal_strlit("b");
        reveal_strlit("c");
        reveal_strlit("d");
        reveal_strlit("e");
        reveal_strlit("f");
        reveal_strlit("g");
        reveal_strlit("h");
        assert(s@ =~= seq![file_char(f as u64)]);
    }
    s
}

fn rank_str(r: usize) -> (s: &'static str)
    requires
        r < 8,
    ensures
        s@ == seq![rank_char((r * 8) as u64)],
{
    let s: &'static str = match r {
        0 => "1",
        1 => "2",
        2 => "3",
        3 => "4",
        4 => "5",
        5 => "6",
        6 => "7",
        _ => "8",
    };
    proof {
        reveal_strlit("1");
        reveal_strlit("2");
        reveal_strlit("3");
        reveal_strlit("4");
        reveal_strlit("5");
        reveal_strlit("6");
        reveal_strlit("7");
        reveal_strlit("8");
        assert(s@ =~= seq![rank_char((r * 8) as u64)]);
    }
    s
}

impl Move {
    /// Builds the move record from its fields.
    pub fn new(from: u32, to: u32, piece: u32, xpiece: u32, move_type: MoveType) -> (m: Move)
        ensures
            m == (Move { from, to, piece, xpiece, move_type }),
    {
        Move { from, to, piece, xpiece, move_type }
    }

    /// The move as long-algebraic text: origin square name then destination
    /// square name, as protocol layers expect it.
    pub fn as_uci_string(&self) -> (s: String)
        requires
            self.from < 64,
            self.to < 64,
        ensures
            s@ == sq_name(self.from as u64) + sq_name(self.to as u64),
    {
        let mut s = String::new();
        s.append(file_str((self.from as usize) % 8));
        s.append(rank_str((self.from as usize) / 8));
        s.append(file_str((self.to as usize) % 8));
        s.append(rank_str((self.to as usize) / 8));
        proof {
            assert(s@ =~= sq_name(self.from as u64) + sq_name(self.to as u64));
        }
        s
    }
}

} // verus!
