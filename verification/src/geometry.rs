//! The geometry of the board: files, ranks, lines and steps.
//!
//! A square is a number below 64; its file is the remainder by 8 and its
//! rank the quotient.

use vstd::prelude::*;
use crate::bits::bit;
use crate::bits::lemma_bit_ops;
use crate::bits::lemma_bit_witness;

verus! {
/// The file of a square, from 0 for the a-file to 7 for the h-file.

pub open spec fn file_of(s: u64) -> u64 {
    s % 8
}
/// The rank of a square, from 0 for the first rank to 7 for the eighth.

pub open spec fn rank_of(s: u64) -> u64 {
    s / 8
}

/// `x` and `y` differ by exactly `d`.
pub open spec fn apart(x: u64, y: u64, d: u64) -> bool {
    x + d == y || y + d == x
}
/// On one rank.

pub open spec fn same_rank(a: u64, b: u64) -> bool {
    rank_of(a) == rank_of(b)
}
/// On one file.

pub open spec fn same_file(a: u64, b: u64) -> bool {
    file_of(a) == file_of(b)
}

/// On one diagonal that rises to the right.
pub open spec fn same_diag(a: u64, b: u64) -> bool {
    file_of(a) + rank_of(b) == file_of(b) + rank_of(a)
}

/// On one diagonal that falls to the right.
pub open spec fn same_anti(a: u64, b: u64) -> bool {
    file_of(a) + rank_of(a) == file_of(b) + rank_of(b)
}

/// On one rank or file: the lines of a rook.
pub open spec fn straight(a: u64, b: u64) -> bool {
    same_rank(a, b) || same_file(a, b)
}

/// On one diagonal of either direction: the lines of a bishop.
pub open spec fn diagonal(a: u64, b: u64) -> bool {
    same_diag(a, b) || same_anti(a, b)
}

/// `x` lies on a rank, file or diagonal on which `a` and `b` both lie.
pub open spec fn collinear(a: u64, b: u64, x: u64) -> bool {
    ||| same_rank(a, b) && same_rank(a, x)
    ||| same_file(a, b) && same_file(a, x)
    ||| same_diag(a, b) && same_diag(a, x)
    ||| same_anti(a, b) && same_anti(a, x)
}

/// `x` lies strictly between `a` and `b` on a line through both. Along any
/// line the square numbers grow with the position on the line, so order on
/// the line is order of the numbers.
pub open spec fn between(a: u64, b: u64, x: u64) -> bool {
    collinear(a, b, x) && ((a < x && x < b) || (b < x && x < a))
}

/// No square strictly between `a` and `b` is occupied.
pub open spec fn clear(occ: u64, a: u64, b: u64) -> bool {
    forall|x: u64| #[trigger] between(a, b, x) ==> !bit(occ, x)
}

/// A rook on `a` reaches `b` over the occupancy `occ`: the squares differ,
/// share a rank or file, and nothing stands between them.
pub open spec fn rook_sees(occ: u64, a: u64, b: u64) -> bool {
    a != b && straight(a, b) && clear(occ, a, b)
}

/// A bishop on `a` reaches `b` over the occupancy `occ`.
pub open spec fn bishop_sees(occ: u64, a: u64, b: u64) -> bool {
    a != b && diagonal(a, b) && clear(occ, a, b)
}

/// A queen on `a` reaches `b` over the occupancy `occ`.
pub open spec fn queen_sees(occ: u64, a: u64, b: u64) -> bool {
    rook_sees(occ, a, b) || bishop_sees(occ, a, b)
}

/// One knight's jump apart.
pub open spec fn knight_step(a: u64, b: u64) -> bool {
    ||| apart(file_of(a), file_of(b), 1) && apart(rank_of(a), rank_of(b), 2)
    ||| apart(file_of(a), file_of(b), 2) && apart(rank_of(a), rank_of(b), 1)
}

/// Neighbours: different squares whose files and ranks differ by at most one.
pub open spec fn king_step(a: u64, b: u64) -> bool {
    &&& a != b
    &&& file_of(a) <= file_of(b) + 1
    &&& file_of(b) <= file_of(a) + 1
    &&& rank_of(a) <= rank_of(b) + 1
    &&& rank_of(b) <= rank_of(a) + 1
}

/// A pawn of `side` (0 white, 1 black) on `a` attacks `b`: one rank ahead,
/// one file to either side.
pub open spec fn pawn_attack(side: int, a: u64, b: u64) -> bool {
    &&& apart(file_of(a), file_of(b), 1)
    &&& if side == 0 {
        rank_of(a) + 1 == rank_of(b)
    } else {
        rank_of(b) + 1 == rank_of(a)
    }
}

/// The squares whose numbers lie strictly between `a` and `b`.
pub open spec fn span(a: u64, b: u64) -> u64 {
    if a < b {
        (1u64 << b).wrapping_sub(2u64 << a)
    } else if b < a {
        (1u64 << a).wrapping_sub(2u64 << b)
    } else {
        0
    }
}
/// The rank of `s`.

pub open spec fn rank_line(s: u64) -> u64 {
    0xffu64 << ((8 * rank_of(s)) as u64)
}
/// The file of `s`.

pub open spec fn file_line(s: u64) -> u64 {
    0x0101_0101_0101_0101u64 << file_of(s)
}
/// The diagonal through `s` that rises to the right.

pub open spec fn diag_line(s: u64) -> u64 {
    if rank_of(s) >= file_of(s) {
        0x8040_2010_0804_0201u64 << ((8 * (rank_of(s) - file_of(s))) as u64)
    } else {
        0x8040_2010_0804_0201u64 >> ((8 * (file_of(s) - rank_of(s))) as u64)
    }
}
/// The diagonal through `s` that falls to the right.

pub open spec fn anti_line(s: u64) -> u64 {
    if file_of(s) + rank_of(s) >= 7 {
        0x0102_0408_1020_4080u64 << ((8 * (file_of(s) + rank_of(s) - 7)) as u64)
    } else {
        0x0102_0408_1020_4080u64 >> ((8 * (7 - file_of(s) - rank_of(s))) as u64)
    }
}

/// The whole line through two different squares, or nothing where no line
/// holds both.
pub open spec fn line_mask(a: u64, b: u64) -> u64 {
    if a == b {
        0
    } else if same_rank(a, b) {
        rank_line(a)
    } else if same_file(a, b) {
        file_line(a)
    } else if same_diag(a, b) {
        diag_line(a)
    } else if same_anti(a, b) {
        anti_line(a)
    } else {
        0
    }
}

/// The squares strictly between two squares on a line, or nothing where no
/// line holds both.
pub open spec fn between_mask(a: u64, b: u64) -> u64 {
    line_mask(a, b) & span(a, b)
}

/// `line_mask` and `between_mask` hold the squares that `collinear` and
/// `between` describe.
pub proof fn lemma_line_masks(a: u64, b: u64, x: u64)
    by (bit_vector)
    requires
        a < 64,
        b < 64,
        x < 64,
    ensures
        bit(line_mask(a, b), x) <==> a != b && collinear(a, b, x),
        bit(between_mask(a, b), x) <==> between(a, b, x),
{
}

/// A path is clear exactly when the occupancy misses the mask of the
/// squares in between.
pub proof fn lemma_clear_mask(occ: u64, a: u64, b: u64)
    requires
        a < 64,
        b < 64,
    ensures
        clear(occ, a, b) <==> occ & between_mask(a, b) == 0,
{
    lemma_bit_ops();
    if occ & between_mask(a, b) == 0 {
        assert forall|x: u64| #[trigger] between(a, b, x) implies !bit(occ, x) by {
            lemma_line_masks(a, b, x);
            assert(bit(occ & between_mask(a, b), x) <==> bit(occ, x) && bit(between_mask(a, b), x));
        }
    } else {
        let i = lemma_bit_witness(occ & between_mask(a, b));
        lemma_line_masks(a, b, i);
        assert(between(a, b, i) && bit(occ, i));
    }
}

/// Nothing lies between two squares a knight's jump or a king's step
/// apart, and a pawn attacks only neighbours.
pub proof fn lemma_steps_gap(a: u64, b: u64)
    by (bit_vector)
    requires
        a < 64,
        b < 64,
    ensures
        knight_step(a, b) || king_step(a, b) ==> between_mask(a, b) == 0,
        knight_step(a, b) ==> line_mask(a, b) == 0,
        pawn_attack(0, a, b) || pawn_attack(1, a, b) ==> king_step(a, b),
{
}

/// Steps and sight lines read the same in both directions.
pub proof fn lemma_symmetry(a: u64, b: u64, occ: u64)
    ensures
        knight_step(a, b) <==> knight_step(b, a),
        king_step(a, b) <==> king_step(b, a),
        pawn_attack(0, a, b) <==> pawn_attack(1, b, a),
        rook_sees(occ, a, b) <==> rook_sees(occ, b, a),
        bishop_sees(occ, a, b) <==> bishop_sees(occ, b, a),
{
    assert forall|x: u64| between(a, b, x) <==> between(b, a, x) by {}
    assert(clear(occ, a, b) <==> clear(occ, b, a));
}

/// The whole line through two different squares; empty where no rank, file
/// or diagonal holds both, and where the squares are the same.
pub fn line_through(a: usize, b: usize) -> (r: u64)
    requires
        a < 64,
        b < 64,
    ensures
        r == line_mask(a as u64, b as u64),
        forall|x: u64| bit(r, x) <==> x < 64 && a != b && collinear(a as u64, b as u64, x),
{
    let fa: u64 = (a % 8) as u64;
    let ra: u64 = (a / 8) as u64;
    let fb: u64 = (b % 8) as u64;
    let rb: u64 = (b / 8) as u64;
    let r = if a == b {
        0
    } else if ra == rb {
        0xffu64 << (8 * ra)
    } else if fa == fb {
        0x0101_0101_0101_0101u64 << fa
    } else if fa + rb == fb + ra {
        if ra >= fa {
            0x8040_2010_0804_0201u64 << (8 * (ra - fa))
        } else {
            0x8040_2010_0804_0201u64 >> (8 * (fa - ra))
        }
    } else if fa + ra == fb + rb {
        if fa + ra >= 7 {
            0x0102_0408_1020_4080u64 << (8 * (fa + ra - 7))
        } else {
            0x0102_0408_1020_4080u64 >> (8 * (7 - fa - ra))
        }
    } else {
        0
    };
    proof {
        assert forall|x: u64|
            bit(r, x) <==> x < 64 && a != b && collinear(a as u64, b as u64, x) by {
            if x < 64 {
                lemma_line_masks(a as u64, b as u64, x);
            }
        }
    }
    r
}

/// The squares strictly between two squares on a rank, file or diagonal;
/// empty where no such line holds both.
pub fn in_between(a: usize, b: usize) -> (r: u64)
    requires
        a < 64,
        b < 64,
    ensures
        r == between_mask(a as u64, b as u64),
        forall|x: u64| bit(r, x) <==> between(a as u64, b as u64, x),
{
    let line = line_through(a, b);
    let sa: u64 = a as u64;
    let sb: u64 = b as u64;
    let gap = if sa < sb {
        (1u64 << sb).wrapping_sub(2u64 << sa)
    } else if sb < sa {
        (1u64 << sa).wrapping_sub(2u64 << sb)
    } else {
        0
    };
    let r = line & gap;
    proof {
        assert forall|x: u64| bit(r, x) <==> between(a as u64, b as u64, x) by {
            if x < 64 {
                lemma_line_masks(a as u64, b as u64, x);
            }
        }
    }
    r
}

} // verus!
