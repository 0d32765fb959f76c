//! Occupancy-dependent attack computation for sliding pieces.
//!
//! A bishop's attack set from a square is the union of four diagonal rays;
//! each ray extends until the edge of the board or the first occupied square,
//! which is itself included (it can be captured) while nothing beyond it is.
//! The specification walks the rays directly; the executable function mirrors
//! it and is proved to return exactly the specified bitboard.

use vstd::prelude::*;
use crate::bits::bit;

verus! {

/// The square index of rank `r`, file `f`.
pub open spec fn sq_at(r: int, f: int) -> u64 {
    (r * 8 + f) as u64
}

/// Whether rank `r`, file `f` is on the board.
pub open spec fn on_bd(r: int, f: int) -> bool {
    0 <= r < 8 && 0 <= f < 8
}

/// The bitboard of the squares a ray visits, starting at rank `r` and file `f`,
/// stepping by `(dr, df)`, for at most `n` squares, stopping at (and including)
/// the first square occupied in `occ`.
pub open spec fn ray_bb(occ: u64, r: int, f: int, dr: int, df: int, n: nat) -> u64
    decreases n,
{
    if n == 0 || !on_bd(r, f) {
        0u64
    } else if bit(occ, sq_at(r, f)) {
        1u64 << sq_at(r, f)
    } else {
        (1u64 << sq_at(r, f)) | ray_bb(occ, r + dr, f + df, dr, df, (n - 1) as nat)
    }
}

/// The attack set of a bishop standing on square `sq` with blockers `occ`:
/// the union of the four diagonal rays, each stopped at its first blocker.
pub open spec fn bishop_att(occ: u64, sq: u64) -> u64 {
    let r = (sq / 8) as int;
    let f = (sq % 8) as int;
    ray_bb(occ, r + 1, f + 1, 1, 1, 7) | ray_bb(occ, r + 1, f - 1, 1, -1, 7) | ray_bb(
        occ,
        r - 1,
        f + 1,
        -1,
        1,
        7,
    ) | ray_bb(occ, r - 1, f - 1, -1, -1, 7)
}

fn ray_moves(occ: u64, r: i32, f: i32, dr: i32, df: i32, n: u32) -> (res: u64)
    requires
        -1 <= r <= 8,
        -1 <= f <= 8,
        dr == 1 || dr == -1,
        df == 1 || df == -1,
        n <= 7,
    ensures
        res == ray_bb(occ, r as int, f as int, dr as int, df as int, n as nat),
    decreases n,
{
    if n == 0 || r < 0 || r > 7 || f < 0 || f > 7 {
        return 0;
    }
    let s: u64 = (r * 8 + f) as u64;
    let b: u64 = 1u64 << s;
    if (occ >> s) & 1u64 == 1u64 {
        b
    } else {
        b | ray_moves(occ, r + dr, f + df, dr, df, n - 1)
    }
}

/// The squares a bishop on `sq` attacks given blockers at `occ`, including the
/// first blocker in each diagonal ray but no square beyond it.
pub fn bishop_moves(occ: u64, sq: usize) -> (res: u64)
    requires
        sq < 64,
    ensures
        res == bishop_att(occ, sq as u64),
{
    let r: i32 = (sq / 8) as i32;
    let f: i32 = (sq % 8) as i32;
    let ne: u64 = ray_moves(occ, r + 1, f + 1, 1, 1, 7);
    let nw: u64 = ray_moves(occ, r + 1, f - 1, 1, -1, 7);
    let se: u64 = ray_moves(occ, r - 1, f + 1, -1, 1, 7);
    let sw: u64 = ray_moves(occ, r - 1, f - 1, -1, -1, 7);
    ne | nw | se | sw
}

/// Square `t` lies on the board `k` diagonal steps from `sq` in direction
/// `(dr, df)`, with every square strictly between unoccupied.
pub open spec fn diag_reach(occ: u64, sq: u64, t: u64, dr: int, df: int, k: int) -> bool {
    let r = sq as int / 8;
    let f = sq as int % 8;
    &&& 1 <= k
    &&& on_bd(r + k * dr, f + k * df)
    &&& t == sq_at(r + k * dr, f + k * df)
    &&& forall|j: int| 1 <= j < k ==> !bit(occ, #[trigger] sq_at(r + j * dr, f + j * df))
}

/// A bishop on `sq` attacks `t` exactly when `t` lies on one of the four
/// diagonals from `sq` with nothing strictly between them: the first blocker
/// of a ray is attacked, squares beyond it are not.
pub open spec fn bishop_sees(occ: u64, sq: u64, t: u64) -> bool {
    exists|dr: int, df: int, k: int|
        (dr == 1 || dr == -1) && (df == 1 || df == -1) && #[trigger] diag_reach(
            occ,
            sq,
            t,
            dr,
            df,
            k,
        )
}

/// Every step up to the `k`-th of a ray from `(r0, f0)` stays on the board.
pub open spec fn ray_on_board(r0: int, f0: int, dr: int, df: int, k: int) -> bool {
    forall|j: int| 0 <= j <= k ==> #[trigger] on_bd(r0 + j * dr, f0 + j * df)
}

/// Every step strictly before the `k`-th of a ray is unoccupied.
pub open spec fn ray_clear(occ: u64, r0: int, f0: int, dr: int, df: int, k: int) -> bool {
    forall|j: int| 0 <= j < k ==> !bit(occ, #[trigger] sq_at(r0 + j * dr, f0 + j * df))
}

/// The members of one ray's bitboard: the squares at steps `0 <= k < n` that
/// the ray reaches before leaving the board, with every earlier step
/// unoccupied.
proof fn lemma_ray_elems(occ: u64, r0: int, f0: int, dr: int, df: int, n: nat)
    requires
        dr == 1 || dr == -1,
        df == 1 || df == -1,
    ensures
        forall|t: u64|
            #[trigger] bit(ray_bb(occ, r0, f0, dr, df, n), t) <==> exists|k: int|
                0 <= k < n && #[trigger] ray_on_board(r0, f0, dr, df, k) && ray_clear(
                    occ,
                    r0,
                    f0,
                    dr,
                    df,
                    k,
                ) && t == sq_at(r0 + k * dr, f0 + k * df),
    decreases n,
{
    if n == 0 || !(0 <= r0 < 8 && 0 <= f0 < 8) {
        crate::bits::lemma_bit_zero();
        assert forall|t: u64|
            #[trigger] bit(ray_bb(occ, r0, f0, dr, df, n), t) <==> (exists|k: int|
                0 <= k < n && #[trigger] ray_on_board(r0, f0, dr, df, k) && ray_clear(
                    occ,
                    r0,
                    f0,
                    dr,
                    df,
                    k,
                ) && t == sq_at(r0 + k * dr, f0 + k * df)) by {
            if exists|k: int|
                0 <= k < n && #[trigger] ray_on_board(r0, f0, dr, df, k) && ray_clear(
                    occ,
                    r0,
                    f0,
                    dr,
                    df,
                    k,
                ) && t == sq_at(r0 + k * dr, f0 + k * df) {
                let k = choose|k: int|
                    0 <= k < n && #[trigger] ray_on_board(r0, f0, dr, df, k) && ray_clear(
                        occ,
                        r0,
                        f0,
                        dr,
                        df,
                        k,
                    ) && t == sq_at(r0 + k * dr, f0 + k * df);
                assert(on_bd(r0 + 0 * dr, f0 + 0 * df));
                assert(false);
            }
        }
    } else {
        let s0 = ((r0 * 8 + f0) as u64);
        crate::bits::lemma_bit_single(s0);
        lemma_ray_elems(occ, r0 + dr, f0 + df, dr, df, (n - 1) as nat);
        if bit(occ, s0) {
            assert(ray_bb(occ, r0, f0, dr, df, n) == 1u64 << s0);
            assert forall|t: u64| #[trigger] bit(ray_bb(occ, r0, f0, dr, df, n), t) implies exists|
                k: int,
            |
                0 <= k < n && #[trigger] ray_on_board(r0, f0, dr, df, k) && ray_clear(
                    occ,
                    r0,
                    f0,
                    dr,
                    df,
                    k,
                ) && t == sq_at(r0 + k * dr, f0 + k * df) by {
                assert(t == s0);
                assert(ray_on_board(r0, f0, dr, df, 0) && ray_clear(occ, r0, f0, dr, df, 0) && t
                    == (r0 + 0 * dr) * 8 + (f0 + 0 * df));
            }
            assert forall|t: u64|
                (exists|k: int|
                    0 <= k < n && #[trigger] ray_on_board(r0, f0, dr, df, k) && ray_clear(
                        occ,
                        r0,
                        f0,
                        dr,
                        df,
                        k,
                    ) && t == sq_at(r0 + k * dr, f0 + k * df)) implies #[trigger] bit(
                ray_bb(occ, r0, f0, dr, df, n),
                t,
            ) by {
                let k = choose|k: int|
                    0 <= k < n && #[trigger] ray_on_board(r0, f0, dr, df, k) && ray_clear(
                        occ,
                        r0,
                        f0,
                        dr,
                        df,
                        k,
                    ) && t == sq_at(r0 + k * dr, f0 + k * df);
                if k >= 1 {
                    assert(!bit(occ, sq_at(r0 + 0 * dr, f0 + 0 * df)));
                    assert(false);
                }
                assert(t == s0);
            }
        } else {
            let rest = ray_bb(occ, r0 + dr, f0 + df, dr, df, (n - 1) as nat);
            assert(ray_bb(occ, r0, f0, dr, df, n) == (1u64 << s0) | rest);
            crate::bits::lemma_bit_or(1u64 << s0, rest);
            assert forall|t: u64| #[trigger] bit(ray_bb(occ, r0, f0, dr, df, n), t) implies exists|
                k: int,
            |
                0 <= k < n && #[trigger] ray_on_board(r0, f0, dr, df, k) && ray_clear(
                    occ,
                    r0,
                    f0,
                    dr,
                    df,
                    k,
                ) && t == sq_at(r0 + k * dr, f0 + k * df) by {
                if t == s0 {
                    assert(ray_on_board(r0, f0, dr, df, 0) && ray_clear(occ, r0, f0, dr, df, 0)
                        && t == sq_at(r0 + 0 * dr, f0 + 0 * df));
                } else {
                    assert(bit(rest, t));
                    let k2 = choose|k2: int|
                        0 <= k2 < (n - 1) as nat && #[trigger] ray_on_board(
                            r0 + dr,
                            f0 + df,
                            dr,
                            df,
                            k2,
                        ) && ray_clear(occ, r0 + dr, f0 + df, dr, df, k2) && t == sq_at(r0 + dr + k2 * dr, f0 + df + k2 * df);
                    let k = k2 + 1;
                    assert forall|j: int| 0 <= j <= k implies #[trigger] on_bd(
                        r0 + j * dr,
                        f0 + j * df,
                    ) by {
                        if j >= 1 {
                            assert(r0 + j * dr == (r0 + dr) + (j - 1) * dr) by (nonlinear_arith);
                            assert(f0 + j * df == (f0 + df) + (j - 1) * df) by (nonlinear_arith);
                            assert(on_bd((r0 + dr) + (j - 1) * dr, (f0 + df) + (j - 1) * df));
                        } else {
                            assert(on_bd(r0, f0));
                        }
                    }
                    assert forall|j: int| 0 <= j < k implies !bit(
                        occ,
                        #[trigger] sq_at(r0 + j * dr, f0 + j * df),
                    ) by {
                        if j >= 1 {
                            assert(r0 + j * dr == (r0 + dr) + (j - 1) * dr) by (nonlinear_arith);
                            assert(f0 + j * df == (f0 + df) + (j - 1) * df) by (nonlinear_arith);
                            assert(!bit(occ, sq_at((r0 + dr) + (j - 1) * dr, (f0 + df) + (j - 1) * df)));
                        } else {
                            assert(sq_at(r0, f0) == s0);
                        }
                    }
                    assert(r0 + k * dr == (r0 + dr) + k2 * dr) by (nonlinear_arith)
                        requires
                            k == k2 + 1,
                    ;
                    assert(f0 + k * df == (f0 + df) + k2 * df) by (nonlinear_arith)
                        requires
                            k == k2 + 1,
                    ;
                    assert(ray_on_board(r0, f0, dr, df, k) && ray_clear(occ, r0, f0, dr, df, k));
                    assert(t == sq_at(r0 + k * dr, f0 + k * df));
                }
            }
            assert forall|t: u64|
                (exists|k: int|
                    0 <= k < n && #[trigger] ray_on_board(r0, f0, dr, df, k) && ray_clear(
                        occ,
                        r0,
                        f0,
                        dr,
                        df,
                        k,
                    ) && t == sq_at(r0 + k * dr, f0 + k * df)) implies #[trigger] bit(
                ray_bb(occ, r0, f0, dr, df, n),
                t,
            ) by {
                let k = choose|k: int|
                    0 <= k < n && #[trigger] ray_on_board(r0, f0, dr, df, k) && ray_clear(
                        occ,
                        r0,
                        f0,
                        dr,
                        df,
                        k,
                    ) && t == sq_at(r0 + k * dr, f0 + k * df);
                if k == 0 {
                    assert(t == s0);
                } else {
                    let k2 = k - 1;
                    assert forall|j: int| 0 <= j <= k2 implies #[trigger] on_bd(
                        (r0 + dr) + j * dr,
                        (f0 + df) + j * df,
                    ) by {
                        assert((r0 + dr) + j * dr == r0 + (j + 1) * dr) by (nonlinear_arith);
                        assert((f0 + df) + j * df == f0 + (j + 1) * df) by (nonlinear_arith);
                        assert(on_bd(r0 + (j + 1) * dr, f0 + (j + 1) * df));
                    }
                    assert forall|j: int| 0 <= j < k2 implies !bit(
                        occ,
                        #[trigger] sq_at((r0 + dr) + j * dr, (f0 + df) + j * df),
                    ) by {
                        assert((r0 + dr) + j * dr == r0 + (j + 1) * dr) by (nonlinear_arith);
                        assert((f0 + df) + j * df == f0 + (j + 1) * df) by (nonlinear_arith);
                        assert(!bit(occ, sq_at(r0 + (j + 1) * dr, f0 + (j + 1) * df)));
                    }
                    assert((r0 + dr) + k2 * dr == r0 + k * dr) by (nonlinear_arith)
                        requires
                            k == k2 + 1,
                    ;
                    assert((f0 + df) + k2 * df == f0 + k * df) by (nonlinear_arith)
                        requires
                            k == k2 + 1,
                    ;
                    assert(ray_on_board(r0 + dr, f0 + df, dr, df, k2) && ray_clear(
                        occ,
                        r0 + dr,
                        f0 + df,
                        dr,
                        df,
                        k2,
                    ));
                    assert(t == sq_at((r0 + dr) + k2 * dr, (f0 + df) + k2 * df));
                    assert(bit(rest, t));
                }
            }
        }
    }
}

/// One diagonal's worth of the attack set: membership in the ray starting one
/// step from `sq` is reachability along that diagonal.
proof fn lemma_diag_dir(occ: u64, sq: u64, dr: int, df: int)
    requires
        sq < 64,
        dr == 1 || dr == -1,
        df == 1 || df == -1,
    ensures
        forall|t: u64|
            #[trigger] bit(ray_bb(occ, sq as int / 8 + dr, sq as int % 8 + df, dr, df, 7), t)
                <==> exists|k: int| #[trigger] diag_reach(occ, sq, t, dr, df, k),
{
    let r = sq as int / 8;
    let f = sq as int % 8;
    let ray = ray_bb(occ, r + dr, f + df, dr, df, 7);
    lemma_ray_elems(occ, r + dr, f + df, dr, df, 7);
    assert forall|t: u64|
        #[trigger] bit(ray, t) <==> exists|k: int| #[trigger] diag_reach(occ, sq, t, dr, df, k) by {
        if bit(ray, t) {
            let k2 = choose|k2: int|
                0 <= k2 < 7 && #[trigger] ray_on_board(r + dr, f + df, dr, df, k2) && ray_clear(
                    occ,
                    r + dr,
                    f + df,
                    dr,
                    df,
                    k2,
                ) && t == sq_at((r + dr) + k2 * dr, (f + df) + k2 * df);
            let k = k2 + 1;
            assert(on_bd((r + dr) + k2 * dr, (f + df) + k2 * df));
            assert(r + k * dr == (r + dr) + k2 * dr) by (nonlinear_arith)
                requires
                    k == k2 + 1,
            ;
            assert(f + k * df == (f + df) + k2 * df) by (nonlinear_arith)
                requires
                    k == k2 + 1,
            ;
            assert forall|j: int| 1 <= j < k implies !bit(
                occ,
                #[trigger] sq_at(r + j * dr, f + j * df),
            ) by {
                assert(r + j * dr == (r + dr) + (j - 1) * dr) by (nonlinear_arith);
                assert(f + j * df == (f + df) + (j - 1) * df) by (nonlinear_arith);
                assert(!bit(occ, sq_at((r + dr) + (j - 1) * dr, (f + df) + (j - 1) * df)));
            }
            assert(diag_reach(occ, sq, t, dr, df, k));
        }
        if exists|k: int| #[trigger] diag_reach(occ, sq, t, dr, df, k) {
            let k = choose|k: int| #[trigger] diag_reach(occ, sq, t, dr, df, k);
            let k2 = k - 1;
            assert(0 <= r <= 7 && 0 <= f <= 7);
            assert(k * dr == if dr == 1 {
                k
            } else {
                -k
            }) by (nonlinear_arith)
                requires
                    dr == 1 || dr == -1,
            ;
            assert(k * df == if df == 1 {
                k
            } else {
                -k
            }) by (nonlinear_arith)
                requires
                    df == 1 || df == -1,
            ;
            assert(k <= 7);
            assert forall|j: int| 0 <= j <= k2 implies #[trigger] on_bd(
                (r + dr) + j * dr,
                (f + df) + j * df,
            ) by {
                let m = j + 1;
                assert((r + dr) + j * dr == r + m * dr && m * dr == (if dr == 1 {
                    m
                } else {
                    -m
                })) by (nonlinear_arith)
                    requires
                        m == j + 1 && (dr == 1 || dr == -1),
                ;
                assert((f + df) + j * df == f + m * df && m * df == (if df == 1 {
                    m
                } else {
                    -m
                })) by (nonlinear_arith)
                    requires
                        m == j + 1 && (df == 1 || df == -1),
                ;
                assert(0 <= r + m * dr < 8 && 0 <= f + m * df < 8);
            }
            assert forall|j: int| 0 <= j < k2 implies !bit(
                occ,
                #[trigger] sq_at((r + dr) + j * dr, (f + df) + j * df),
            ) by {
                assert((r + dr) + j * dr == r + (j + 1) * dr) by (nonlinear_arith);
                assert((f + df) + j * df == f + (j + 1) * df) by (nonlinear_arith);
                assert(!bit(occ, sq_at(r + (j + 1) * dr, f + (j + 1) * df)));
            }
            assert((r + dr) + k2 * dr == r + k * dr) by (nonlinear_arith)
                requires
                    k == k2 + 1,
            ;
            assert((f + df) + k2 * df == f + k * df) by (nonlinear_arith)
                requires
                    k == k2 + 1,
            ;
            assert(ray_on_board(r + dr, f + df, dr, df, k2) && ray_clear(
                occ,
                r + dr,
                f + df,
                dr,
                df,
                k2,
            ) && t == sq_at((r + dr) + k2 * dr, (f + df) + k2 * df));
            assert(bit(ray, t));
        }
    }
}

/// The attack bitboard is exact: a square is a member of `bishop_att(occ,
/// sq)` precisely when a bishop on `sq` sees it along a diagonal — up to and
/// including the first occupied square of each ray, never beyond it, never
/// off the board.
pub proof fn lemma_bishop_att_sees(occ: u64, sq: u64)
    requires
        sq < 64,
    ensures
        forall|t: u64| #[trigger] bit(bishop_att(occ, sq), t) <==> bishop_sees(occ, sq, t),
{
    let r = sq as int / 8;
    let f = sq as int % 8;
    let ne = ray_bb(occ, r + 1, f + 1, 1, 1, 7);
    let nw = ray_bb(occ, r + 1, f + (-1), 1, -1, 7);
    let se = ray_bb(occ, r + (-1), f + 1, -1, 1, 7);
    let sw = ray_bb(occ, r + (-1), f + (-1), -1, -1, 7);
    assert(bishop_att(occ, sq) == ne | nw | se | sw);
    lemma_diag_dir(occ, sq, 1, 1);
    lemma_diag_dir(occ, sq, 1, -1);
    lemma_diag_dir(occ, sq, -1, 1);
    lemma_diag_dir(occ, sq, -1, -1);
    crate::bits::lemma_bit_or(ne, nw);
    crate::bits::lemma_bit_or(ne | nw, se);
    crate::bits::lemma_bit_or(ne | nw | se, sw);
    assert forall|t: u64|
        #[trigger] bit(bishop_att(occ, sq), t) <==> bishop_sees(occ, sq, t) by {
        if bit(bishop_att(occ, sq), t) {
            if bit(ne, t) {
                let k = choose|k: int| #[trigger] diag_reach(occ, sq, t, 1, 1, k);
            } else if bit(nw, t) {
                let k = choose|k: int| #[trigger] diag_reach(occ, sq, t, 1, -1, k);
            } else if bit(se, t) {
                let k = choose|k: int| #[trigger] diag_reach(occ, sq, t, -1, 1, k);
            } else {
                let k = choose|k: int| #[trigger] diag_reach(occ, sq, t, -1, -1, k);
            }
        }
        if bishop_sees(occ, sq, t) {
            let (dr, df, k) = choose|dr: int, df: int, k: int|
                (dr == 1 || dr == -1) && (df == 1 || df == -1) && #[trigger] diag_reach(
                    occ,
                    sq,
                    t,
                    dr,
                    df,
                    k,
                );
            if dr == 1 && df == 1 {
                assert(bit(ne, t));
            } else if dr == 1 && df == -1 {
                assert(bit(nw, t));
            } else if dr == -1 && df == 1 {
                assert(bit(se, t));
            } else {
                assert(bit(sw, t));
            }
        }
    }
}

} // verus!
