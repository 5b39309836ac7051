//! Attack sets: the squares that a piece on a given square threatens.
//!
//! Knight, king and pawn attacks depend on the square alone. The attacks of
//! the sliding pieces depend on the occupancy of the whole board and are
//! computed without loops or branches on the occupancy: along files and
//! diagonals by subtracting the slider's bit from the occupancy of the line,
//! once as it stands and once mirrored; along ranks by looking up the row of
//! attacks that belongs to the six inner occupancy bits of the rank.

use vstd::prelude::*;
use vstd::std_specs::bits::axiom_u64_leading_zeros;
use crate::bits::bit;
use crate::bits::flipped;
use crate::bits::lemma_bit_ops;
use crate::bits::only;
use crate::bits::single;
use crate::bits::swap_bytes;
use crate::geometry::anti_line;
use crate::geometry::between;
use crate::geometry::between_mask;
use crate::geometry::bishop_sees;
use crate::geometry::diag_line;
use crate::geometry::diagonal;
use crate::geometry::file_line;
use crate::geometry::file_of;
use crate::geometry::king_step;
use crate::geometry::knight_step;
use crate::geometry::lemma_clear_mask;
use crate::geometry::pawn_attack;
use crate::geometry::queen_sees;
use crate::geometry::rank_line;
use crate::geometry::rank_of;
use crate::geometry::rook_sees;
use crate::geometry::straight;

verus! {
/// The knight's attacks from `s`, by shifting its bit.

pub open spec fn knight_mask(s: u64) -> u64 {
    let n = 1u64 << s;
    let h1 = ((n >> 1) & 0x7f7f_7f7f_7f7f_7f7f) | ((n << 1) & 0xfefe_fefe_fefe_fefe);
    let h2 = ((n >> 2) & 0x3f3f_3f3f_3f3f_3f3f) | ((n << 2) & 0xfcfc_fcfc_fcfc_fcfc);
    (h1 << 16) | (h1 >> 16) | (h2 << 8) | (h2 >> 8)
}
/// The king's attacks from `s`, by shifting its bit.

pub open spec fn king_mask(s: u64) -> u64 {
    let n = 1u64 << s;
    let k = n | (n << 8) | (n >> 8);
    let w = k | ((k & 0xfefe_fefe_fefe_fefe) >> 1) | ((k & 0x7f7f_7f7f_7f7f_7f7f) << 1);
    w ^ n
}
/// The attacks of a pawn of `side` from `s`, by shifting its bit.

pub open spec fn pawn_mask(s: u64, side: u64) -> u64 {
    let n = 1u64 << s;
    if side == 0 {
        ((n & 0xfefe_fefe_fefe_fefe) << 7) | ((n & 0x7f7f_7f7f_7f7f_7f7f) << 9)
    } else {
        ((n & 0xfefe_fefe_fefe_fefe) >> 9) | ((n & 0x7f7f_7f7f_7f7f_7f7f) >> 7)
    }
}

/// The squares that a slider with the one-square mask `b` reaches along
/// `line` (which leaves the slider's own square out).
pub open spec fn ray(b: u64, line: u64, occ: u64) -> u64 {
    let o = occ & line;
    let up = o.wrapping_sub(b);
    let down = flipped(o).wrapping_sub(flipped(b));
    (up ^ flipped(down)) & line
}

/// The attacks along the first rank of a rook on `file`, where `inner` holds
/// the occupancy of the files b to g.
pub open spec fn rank_row(file: u64, inner: u64) -> u64 {
    let b = 1u64 << file;
    let o = inner << 1;
    let east = (o ^ o.wrapping_sub(b << 1)) & 0xff & !(b << 1).wrapping_sub(1);
    let w1 = o & b.wrapping_sub(1);
    let w2 = w1 | (w1 >> 1);
    let w3 = w2 | (w2 >> 2);
    let w4 = w3 | (w3 >> 4);
    let west = b.wrapping_sub(1) & !(w4 >> 1);
    east | west
}
/// The bishop's attacks from `s`: the rays along both diagonals.

pub open spec fn bishop_mask(s: u64, occ: u64) -> u64 {
    ray(only(s), diag_line(s) ^ only(s), occ) | ray(only(s), anti_line(s) ^ only(s), occ)
}
/// The rook's attacks from `s`: the ray along the file, and the row that
/// belongs to the inner occupancy of the rank, moved up to that rank.

pub open spec fn rook_mask(s: u64, occ: u64) -> u64 {
    let shift = (8 * rank_of(s)) as u64;
    ray(only(s), file_line(s) ^ only(s), occ) | (rank_row(
        file_of(s),
        (occ >> ((shift + 1) as u64)) & 0x3f,
    ) << shift)
}

proof fn lemma_steps(s: u64, t: u64)
    by (bit_vector)
    requires
        s < 64,
        t < 64,
    ensures
        bit(knight_mask(s), t) <==> knight_step(s, t),
        bit(king_mask(s), t) <==> king_step(s, t),
        bit(pawn_mask(s, 0), t) <==> pawn_attack(0, s, t),
        bit(pawn_mask(s, 1), t) <==> pawn_attack(1, s, t),
{
}

proof fn lemma_bishop(s: u64, t: u64, occ: u64)
    by (bit_vector)
    requires
        s < 64,
        t < 64,
    ensures
        bit(bishop_mask(s, occ), t) <==> s != t && diagonal(s, t) && occ & between_mask(s, t) == 0,
{
}

proof fn lemma_rook(s: u64, t: u64, occ: u64)
    by (bit_vector)
    requires
        s < 64,
        t < 64,
    ensures
        bit(rook_mask(s, occ), t) <==> s != t && straight(s, t) && occ & between_mask(s, t) == 0,
{
}

/// Exactly one piece stands between `a` and `t`, and it is one of `blockers`.
pub open spec fn one_blocker(occ: u64, blockers: u64, a: u64, t: u64) -> bool {
    single(occ & between_mask(a, t)) && occ & between_mask(a, t) & !blockers == 0
}
/// What a rook on `s` attacks only once the `blockers` it attacks are gone.

pub open spec fn rook_xray_mask(s: u64, occ: u64, blockers: u64) -> u64 {
    rook_mask(s, occ) ^ rook_mask(s, occ & !(blockers & rook_mask(s, occ)))
}
/// What a bishop on `s` attacks only once the `blockers` it attacks are gone.

pub open spec fn bishop_xray_mask(s: u64, occ: u64, blockers: u64) -> u64 {
    bishop_mask(s, occ) ^ bishop_mask(s, occ & !(blockers & bishop_mask(s, occ)))
}

proof fn lemma_thin_rook(s: u64, t: u64, occ: u64, blockers: u64)
    by (bit_vector)
    requires
        s < 64,
        t < 64,
        straight(s, t),
    ensures
        (occ & !(blockers & rook_mask(s, occ))) & between_mask(s, t) == 0 <==> occ & between_mask(
            s,
            t,
        ) == 0 || one_blocker(occ, blockers, s, t),
{
}

proof fn lemma_thin_bishop(s: u64, t: u64, occ: u64, blockers: u64)
    by (bit_vector)
    requires
        s < 64,
        t < 64,
        diagonal(s, t),
    ensures
        (occ & !(blockers & bishop_mask(s, occ))) & between_mask(s, t) == 0 <==> occ
            & between_mask(s, t) == 0 || one_blocker(occ, blockers, s, t),
{
}

proof fn lemma_xray(s: u64, t: u64, occ: u64, blockers: u64)
    requires
        s < 64,
        t < 64,
    ensures
        bit(rook_xray_mask(s, occ, blockers), t) <==> s != t && straight(s, t) && one_blocker(
            occ,
            blockers,
            s,
            t,
        ),
        bit(bishop_xray_mask(s, occ, blockers), t) <==> s != t && diagonal(s, t) && one_blocker(
            occ,
            blockers,
            s,
            t,
        ),
{
    lemma_bit_ops();
    lemma_rook(s, t, occ);
    lemma_rook(s, t, occ & !(blockers & rook_mask(s, occ)));
    lemma_bishop(s, t, occ);
    lemma_bishop(s, t, occ & !(blockers & bishop_mask(s, occ)));
    if straight(s, t) {
        lemma_thin_rook(s, t, occ, blockers);
    }
    if diagonal(s, t) {
        lemma_thin_bishop(s, t, occ, blockers);
    }
}

fn diag_of(s: u64) -> (r: u64)
    requires
        s < 64,
    ensures
        r == diag_line(s),
{
    let f = s % 8;
    let k = s / 8;
    if k >= f {
        0x8040_2010_0804_0201u64 << (8 * (k - f))
    } else {
        0x8040_2010_0804_0201u64 >> (8 * (f - k))
    }
}

fn anti_of(s: u64) -> (r: u64)
    requires
        s < 64,
    ensures
        r == anti_line(s),
{
    let f = s % 8;
    let k = s / 8;
    if f + k >= 7 {
        0x0102_0408_1020_4080u64 << (8 * (f + k - 7))
    } else {
        0x0102_0408_1020_4080u64 >> (8 * (7 - f - k))
    }
}

fn ray_of(b: u64, line: u64, occ: u64) -> (r: u64)
    ensures
        r == ray(b, line, occ),
{
    let o = occ & line;
    let up = o.wrapping_sub(b);
    let down = swap_bytes(o).wrapping_sub(swap_bytes(b));
    (up ^ swap_bytes(down)) & line
}

fn row_of(file: u64, inner: u64) -> (r: u64)
    requires
        file < 8,
    ensures
        r == rank_row(file, inner),
{
    let b = 1u64 << file;
    let o = inner << 1;
    let east = (o ^ o.wrapping_sub(b << 1)) & 0xff & !(b << 1).wrapping_sub(1);
    let w1 = o & b.wrapping_sub(1);
    let w2 = w1 | (w1 >> 1);
    let w3 = w2 | (w2 >> 2);
    let w4 = w3 | (w3 >> 4);
    let west = b.wrapping_sub(1) & !(w4 >> 1);
    east | west
}

/// The attack sets of the pieces.
pub struct Attacks;

impl Attacks {
    /// The squares that a pawn of `side` on `sq` attacks.
    pub fn pawn(sq: usize, side: usize) -> (r: u64)
        requires
            sq < 64,
            side < 2,
        ensures
            r == pawn_mask(sq as u64, side as u64),
            forall|t: u64| bit(r, t) <==> t < 64 && pawn_attack(side as int, sq as u64, t),
    {
        let n = 1u64 << (sq as u64);
        let r = if side == 0 {
            ((n & 0xfefe_fefe_fefe_fefe) << 7) | ((n & 0x7f7f_7f7f_7f7f_7f7f) << 9)
        } else {
            ((n & 0xfefe_fefe_fefe_fefe) >> 9) | ((n & 0x7f7f_7f7f_7f7f_7f7f) >> 7)
        };
        proof {
            assert forall|t: u64| bit(r, t) <==> t < 64 && pawn_attack(
                side as int,
                sq as u64,
                t,
            ) by {
                if t < 64 {
                    lemma_steps(sq as u64, t);
                }
            }
        }
        r
    }

    /// The squares a knight's jump away from `sq`.
    pub fn knight(sq: usize) -> (r: u64)
        requires
            sq < 64,
        ensures
            r == knight_mask(sq as u64),
            forall|t: u64| bit(r, t) <==> t < 64 && knight_step(sq as u64, t),
    {
        let n = 1u64 << (sq as u64);
        let h1 = ((n >> 1) & 0x7f7f_7f7f_7f7f_7f7f) | ((n << 1) & 0xfefe_fefe_fefe_fefe);
        let h2 = ((n >> 2) & 0x3f3f_3f3f_3f3f_3f3f) | ((n << 2) & 0xfcfc_fcfc_fcfc_fcfc);
        let r = (h1 << 16) | (h1 >> 16) | (h2 << 8) | (h2 >> 8);
        proof {
            assert forall|t: u64| bit(r, t) <==> t < 64 && knight_step(sq as u64, t) by {
                if t < 64 {
                    lemma_steps(sq as u64, t);
                }
            }
        }
        r
    }

    /// The neighbours of `sq`.
    pub fn king(sq: usize) -> (r: u64)
        requires
            sq < 64,
        ensures
            r == king_mask(sq as u64),
            forall|t: u64| bit(r, t) <==> t < 64 && king_step(sq as u64, t),
    {
        let n = 1u64 << (sq as u64);
        let k = n | (n << 8) | (n >> 8);
        let w = k | ((k & 0xfefe_fefe_fefe_fefe) >> 1) | ((k & 0x7f7f_7f7f_7f7f_7f7f) << 1);
        let r = w ^ n;
        proof {
            assert forall|t: u64| bit(r, t) <==> t < 64 && king_step(sq as u64, t) by {
                if t < 64 {
                    lemma_steps(sq as u64, t);
                }
            }
        }
        r
    }

    /// The squares that a bishop on `sq` attacks over the occupancy `occ`:
    /// along both diagonals up to and including the first occupied square.
    pub fn bishop(sq: usize, occ: u64) -> (r: u64)
        requires
            sq < 64,
        ensures
            r == bishop_walked(sq as u64, occ),
            r == bishop_mask(sq as u64, occ),
            forall|t: u64| bit(r, t) <==> t < 64 && bishop_sees(occ, sq as u64, t),
    {
        let s = sq as u64;
        let b = 1u64 << s;
        let r = ray_of(b, diag_of(s) ^ b, occ) | ray_of(b, anti_of(s) ^ b, occ);
        proof {
            lemma_bishop_sees(s, occ);
            lemma_bishop_is_walk(s, occ);
        }
        r
    }

    /// The squares that a rook on `sq` attacks over the occupancy `occ`:
    /// along its rank and file up to and including the first occupied square.
    pub fn rook(sq: usize, occ: u64) -> (r: u64)
        requires
            sq < 64,
        ensures
            r == rook_walked(sq as u64, occ),
            r == rook_mask(sq as u64, occ),
            forall|t: u64| bit(r, t) <==> t < 64 && rook_sees(occ, sq as u64, t),
    {
        let s = sq as u64;
        let b = 1u64 << s;
        let file = s % 8;
        let shift = 8 * (s / 8);
        let files = ray_of(b, (0x0101_0101_0101_0101u64 << file) ^ b, occ);
        let inner = (occ >> (shift + 1)) & 0x3f;
        let ranks = row_of(file, inner) << shift;
        let r = files | ranks;
        proof {
            lemma_rook_sees(s, occ);
            lemma_rook_is_walk(s, occ);
        }
        r
    }

    /// The squares that a queen on `sq` attacks over the occupancy `occ`.
    pub fn queen(sq: usize, occ: u64) -> (r: u64)
        requires
            sq < 64,
        ensures
            r == bishop_walked(sq as u64, occ) | rook_walked(sq as u64, occ),
            r == bishop_mask(sq as u64, occ) | rook_mask(sq as u64, occ),
            forall|t: u64| bit(r, t) <==> t < 64 && queen_sees(occ, sq as u64, t),
    {
        let r = Self::bishop(sq, occ) | Self::rook(sq, occ);
        proof {
            lemma_bit_ops();
        }
        r
    }

    /// The squares that a rook on `sq` would newly attack if the `blockers`
    /// it attacks now were taken off the board: those with exactly one
    /// piece, a blocker, between `sq` and them.
    pub fn xray_rook(sq: usize, occ: u64, blockers: u64) -> (r: u64)
        requires
            sq < 64,
        ensures
            r == rook_xray_mask(sq as u64, occ, blockers),
            forall|t: u64|
                bit(r, t) <==> t < 64 && sq != t && straight(sq as u64, t) && one_blocker(
                    occ,
                    blockers,
                    sq as u64,
                    t,
                ),
    {
        let attacks = Self::rook(sq, occ);
        let r = attacks ^ Self::rook(sq, occ & !(blockers & attacks));
        proof {
            assert forall|t: u64|
                bit(r, t) <==> t < 64 && sq != t && straight(sq as u64, t) && one_blocker(
                    occ,
                    blockers,
                    sq as u64,
                    t,
                ) by {
                if t < 64 {
                    lemma_xray(sq as u64, t, occ, blockers);
                }
            }
        }
        r
    }

    /// As `xray_rook`, along the diagonals.
    pub fn xray_bishop(sq: usize, occ: u64, blockers: u64) -> (r: u64)
        requires
            sq < 64,
        ensures
            r == bishop_xray_mask(sq as u64, occ, blockers),
            forall|t: u64|
                bit(r, t) <==> t < 64 && sq != t && diagonal(sq as u64, t) && one_blocker(
                    occ,
                    blockers,
                    sq as u64,
                    t,
                ),
    {
        let attacks = Self::bishop(sq, occ);
        let r = attacks ^ Self::bishop(sq, occ & !(blockers & attacks));
        proof {
            assert forall|t: u64|
                bit(r, t) <==> t < 64 && sq != t && diagonal(sq as u64, t) && one_blocker(
                    occ,
                    blockers,
                    sq as u64,
                    t,
                ) by {
                if t < 64 {
                    lemma_xray(sq as u64, t, occ, blockers);
                }
            }
        }
        r
    }
}

/// The squares of the rank of `s` to the west of `s`.
pub open spec fn west_mask(s: u64) -> u64 {
    (1u64 << s).wrapping_sub(1) & rank_line(s)
}

/// The rook's attacks found a second way: along the file as before; to the
/// east by subtracting the rook from the nearest piece there; to the west
/// from the highest occupied square `high` among those to the west and a1.
pub open spec fn rook_mask_by_parts(s: u64, occ: u64, high: u64) -> u64 {
    let b = 1u64 << s;
    let left = west_mask(s);
    let right = b ^ left ^ rank_line(s);
    let ahead = right & occ;
    let near = ahead & (0u64.wrapping_sub(ahead));
    let east = (near ^ near.wrapping_sub(b)) & right;
    let west = left ^ west_mask(high);
    ray(b, file_line(s) ^ b, occ) | east | west
}

proof fn lemma_rook_by_parts(s: u64, t: u64, occ: u64, high: u64)
    by (bit_vector)
    requires
        s < 64,
        t < 64,
        high < 64,
        (((west_mask(s) & occ) | 1) >> high) & 1 != 0,
        ((west_mask(s) & occ) | 1) >> ((high + 1) as u64) == 0,
    ensures
        bit(rook_mask_by_parts(s, occ, high), t) <==> s != t && straight(s, t) && occ
            & between_mask(s, t) == 0,
{
}

fn west_of(s: u64) -> (r: u64)
    requires
        s < 64,
    ensures
        r == west_mask(s),
{
    (1u64 << s).wrapping_sub(1) & (0xffu64 << (8 * (s / 8)))
}

/// The squares that a bishop on `idx` attacks over the occupancy `occ`.
pub fn batt(idx: usize, occ: u64) -> (r: u64)
    requires
        idx < 64,
        ensures
        r == bishop_walked(idx as u64, occ),
        r == bishop_mask(idx as u64, occ),
        forall|t: u64| bit(r, t) <==> t < 64 && bishop_sees(occ, idx as u64, t),
{
    Attacks::bishop(idx, occ)
}

/// The squares that a rook on `idx` attacks over the occupancy `occ`,
/// found without the table of rows: the result is that of `Attacks::rook`.
pub fn ratt(idx: usize, occ: u64) -> (r: u64)
    requires
        idx < 64,
        ensures
        r == rook_walked(idx as u64, occ),
        r == rook_mask(idx as u64, occ),
        forall|t: u64| bit(r, t) <==> t < 64 && rook_sees(occ, idx as u64, t),
{
    let s = idx as u64;
    let b = 1u64 << s;
    let files = ray_of(b, (0x0101_0101_0101_0101u64 << (s % 8)) ^ b, occ);
    let left = west_of(s);
    let right = b ^ left ^ (0xffu64 << (8 * (s / 8)));
    let ahead = right & occ;
    let near = ahead & (0u64.wrapping_sub(ahead));
    let east = (near ^ near.wrapping_sub(b)) & right;
    let blockers = (left & occ) | 1;
    proof {
        axiom_u64_leading_zeros(blockers);
        lemma_or_one(left & occ);
    }
    let high = (63 - blockers.leading_zeros()) as u64;
    let west = left ^ west_of(high);
    let r = files | east | west;
    proof {
        assert(r == rook_mask_by_parts(s, occ, high));
        assert forall|t: u64| t < 64 implies (bit(r, t) <==> bit(rook_mask(s, occ), t)) by {
            lemma_rook_by_parts(s, t, occ, high);
            lemma_rook(s, t, occ);
        }
        crate::bits::lemma_bit_ext(r, rook_mask(s, occ));
        lemma_rook_sees(s, occ);
        lemma_rook_is_walk(s, occ);
    }
    r
}

proof fn lemma_or_one(x: u64)
    by (bit_vector)
    ensures
        x | 1 != 0,
{
}

/// Every square of `b` moved one step in the direction `dir`; squares that
/// would leave the board drop out. The directions are north, south, east
/// and west (0 to 3), then north-east, north-west, south-east and
/// south-west (4 to 7).
pub open spec fn stepped(b: u64, dir: u64) -> u64 {
    if dir == 0 {
        b << 8
    } else if dir == 1 {
        b >> 8
    } else if dir == 2 {
        (b << 1) & 0xfefe_fefe_fefe_fefe
    } else if dir == 3 {
        (b >> 1) & 0x7f7f_7f7f_7f7f_7f7f
    } else if dir == 4 {
        (b << 9) & 0xfefe_fefe_fefe_fefe
    } else if dir == 5 {
        (b << 7) & 0x7f7f_7f7f_7f7f_7f7f
    } else if dir == 6 {
        (b >> 7) & 0xfefe_fefe_fefe_fefe
    } else {
        (b >> 9) & 0x7f7f_7f7f_7f7f_7f7f
    }
}

/// The squares reached from `front` by walking up to `steps` steps in the
/// direction `dir`: each step takes the next square, and the walk goes on
/// from there only if that square is empty.
pub open spec fn walked(front: u64, occ: u64, dir: u64, steps: nat) -> u64
    decreases steps,
{
    if steps == 0 {
        0
    } else {
        let next = stepped(front, dir);
        next | walked(next & !occ, occ, dir, (steps - 1) as nat)
    }
}

/// The squares that a walk from `s` along rank and file reaches.
pub open spec fn rook_walked(s: u64, occ: u64) -> u64 {
    walked(only(s), occ, 0, 7) | walked(only(s), occ, 1, 7) | walked(only(s), occ, 2, 7) | walked(
        only(s),
        occ,
        3,
        7,
    )
}

/// The squares that a walk from `s` along the diagonals reaches.
pub open spec fn bishop_walked(s: u64, occ: u64) -> u64 {
    walked(only(s), occ, 4, 7) | walked(only(s), occ, 5, 7) | walked(only(s), occ, 6, 7) | walked(
        only(s),
        occ,
        7,
        7,
    )
}

/// The rook's attacks, computed at one stroke, are the squares that the
/// walk along rank and file reaches.
pub proof fn lemma_rook_is_walk(s: u64, occ: u64)
    by (bit_vector)
    requires
        s < 64,
    ensures
        rook_mask(s, occ) == rook_walked(s, occ),
{
}

/// The bishop's attacks, computed at one stroke, are the squares that the
/// walk along the diagonals reaches.
pub proof fn lemma_bishop_is_walk(s: u64, occ: u64)
    by (bit_vector)
    requires
        s < 64,
    ensures
        bishop_mask(s, occ) == bishop_walked(s, occ),
{
}

/// The pawn's mask holds the squares that the pawn attacks.
pub proof fn lemma_pawn_mask(s: u64, t: u64)
    requires
        s < 64,
        t < 64,
    ensures
        bit(pawn_mask(s, 0), t) <==> pawn_attack(0, s, t),
        bit(pawn_mask(s, 1), t) <==> pawn_attack(1, s, t),
{
    lemma_steps(s, t);
}

/// The bishop's mask holds the squares that a walk along the diagonals
/// reaches.
pub proof fn lemma_bishop_sees(s: u64, occ: u64)
    requires
        s < 64,
    ensures
        forall|t: u64| bit(bishop_mask(s, occ), t) <==> t < 64 && bishop_sees(occ, s, t),
{
    assert forall|t: u64| bit(bishop_mask(s, occ), t) <==> t < 64 && bishop_sees(occ, s, t) by {
        if t < 64 {
            lemma_bishop(s, t, occ);
            lemma_clear_mask(occ, s, t);
        }
    }
}

/// The rook's mask holds the squares that a walk along rank and file
/// reaches.
pub proof fn lemma_rook_sees(s: u64, occ: u64)
    requires
        s < 64,
    ensures
        forall|t: u64| bit(rook_mask(s, occ), t) <==> t < 64 && rook_sees(occ, s, t),
{
    assert forall|t: u64| bit(rook_mask(s, occ), t) <==> t < 64 && rook_sees(occ, s, t) by {
        if t < 64 {
            lemma_rook(s, t, occ);
            lemma_clear_mask(occ, s, t);
        }
    }
}

} // verus!
