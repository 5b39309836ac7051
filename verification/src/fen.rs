//! Reading a position from its description in Forsyth-Edwards notation.
//!
//! The description is read as bytes. Its fields are separated by white
//! space: the board, rank by rank from the eighth down and file by file from
//! a to h; the side to move; the castling rights; the en-passant square.
//! Fields that are missing count as empty, and further fields are not read.

use vstd::prelude::*;
use vstd::string::StringSliceAdditionalSpecFns;
use crate::bits::only;
use crate::consts::Right;
use crate::position::Position;

verus! {

/// White space between fields.
pub open spec fn is_space(b: u8) -> bool {
    b == 32 || 9 <= b <= 13
}

/// The first place at or after `i` that holds no white space.
pub open spec fn skip_spaces(s: Seq<u8>, i: int) -> int
    decreases s.len() - i,
{
    if 0 <= i < s.len() && is_space(s[i]) {
        skip_spaces(s, i + 1)
    } else {
        i
    }
}

/// The first place at or after `i` that holds white space, or the end.
pub open spec fn field_end(s: Seq<u8>, i: int) -> int
    decreases s.len() - i,
{
    if 0 <= i < s.len() && !is_space(s[i]) {
        field_end(s, i + 1)
    } else {
        i
    }
}

/// The side of the piece that a letter of the board field stands for:
/// White for the capital letters of the six pieces, Black for all else.
pub open spec fn letter_side(c: u8) -> int {
    if c == 80 || c == 78 || c == 66 || c == 82 || c == 81 || c == 75 {
        0
    } else {
        1
    }
}

/// The kind of the piece that a letter of the board field stands for; a
/// letter that names no piece counts as a pawn.
pub open spec fn letter_kind(c: u8) -> int {
    if c == 78 || c == 110 {
        3
    } else if c == 66 || c == 98 {
        4
    } else if c == 82 || c == 114 {
        5
    } else if c == 81 || c == 113 {
        6
    } else if c == 75 || c == 107 {
        7
    } else {
        2
    }
}

/// The position `p` with the pieces of the board field `s[i..end]` put on
/// it, reading on from `row` and `col`. A slash starts the next rank below
/// (row 8 stands for the ranks below the first), a digit from 1 to 8 skips
/// as many files, any other byte puts a piece on the square, if the square
/// is on the board, and steps to the next file.
pub open spec fn scan_board(
    s: Seq<u8>,
    i: int,
    end: int,
    row: int,
    col: int,
    p: Position,
) -> Position
    decreases end - i,
{
    if !(0 <= i < end <= s.len()) {
        p
    } else if s[i] == 47 {
        scan_board(
            s,
            i + 1,
            end,
            if 1 <= row <= 7 {
                row - 1
            } else {
                8
            },
            0,
            p,
        )
    } else if 49 <= s[i] <= 56 {
        scan_board(
            s,
            i + 1,
            end,
            row,
            if col < 8 {
                col + (s[i] - 48)
            } else {
                col
            },
            p,
        )
    } else {
        scan_board(
            s,
            i + 1,
            end,
            row,
            if col < 8 {
                col + 1
            } else {
                col
            },
            if 0 <= row < 8 && 0 <= col < 8 {
                p.toggled(letter_side(s[i]), letter_kind(s[i]), only((8 * row + col) as u64))
            } else {
                p
            },
        )
    }
}

/// The right that a letter of the castling field stands for.
pub open spec fn letter_right(c: u8) -> u8 {
    if c == 81 {
        Right::WQS
    } else if c == 75 {
        Right::WKS
    } else if c == 113 {
        Right::BQS
    } else if c == 107 {
        Right::BKS
    } else {
        0
    }
}

/// The rights `acc` together with those that the letters of `s[i..end]`
/// stand for.
pub open spec fn scan_rights(s: Seq<u8>, i: int, end: int, acc: u8) -> u8
    decreases end - i,
{
    if !(0 <= i < end <= s.len()) {
        acc
    } else {
        scan_rights(s, i + 1, end, acc | letter_right(s[i]))
    }
}

/// The square that the field `s[i..end]` names by file letter and rank
/// digit; 0 where it names none.
pub open spec fn scan_square(s: Seq<u8>, i: int, end: int) -> u8 {
    if 0 <= i && i + 2 <= end <= s.len() && 97 <= s[i] <= 104 && 49 <= s[i + 1] <= 56 {
        (8 * (s[i + 1] - 49) + (s[i] - 97)) as u8
    } else {
        0
    }
}

/// The position that the description `s` stands for.
pub open spec fn fen_position(s: Seq<u8>) -> Position {
    let a0 = skip_spaces(s, 0);
    let e0 = field_end(s, a0);
    let a1 = skip_spaces(s, e0);
    let e1 = field_end(s, a1);
    let a2 = skip_spaces(s, e1);
    let e2 = field_end(s, a2);
    let a3 = skip_spaces(s, e2);
    let e3 = field_end(s, a3);
    let empty = Position { bb: [0, 0, 0, 0, 0, 0, 0, 0], stm: false, enp_sq: 0, rights: 0 };
    let board = scan_board(s, a0, e0, 7, 0, empty);
    Position {
        bb: board.bb,
        stm: e1 == a1 + 1 && s[a1] == 98,
        enp_sq: scan_square(s, a3, e3),
        rights: scan_rights(s, a2, e2, 0),
    }
}

pub(crate) fn skip(s: &[u8], i: usize) -> (r: usize)
    requires
        i <= s@.len(),
    ensures
        r == skip_spaces(s@, i as int),
        i <= r <= s@.len(),
{
    let mut j = i;
    while j < s.len() && (s[j] == 32 || (9 <= s[j] && s[j] <= 13))
        invariant
            i <= j <= s@.len(),
            skip_spaces(s@, j as int) == skip_spaces(s@, i as int),
        decreases s@.len() - j,
    {
        j += 1;
    }
    j
}

pub(crate) fn end_of(s: &[u8], i: usize) -> (r: usize)
    requires
        i <= s@.len(),
    ensures
        r == field_end(s@, i as int),
        i <= r <= s@.len(),
{
    let mut j = i;
    while j < s.len() && !(s[j] == 32 || (9 <= s[j] && s[j] <= 13))
        invariant
            i <= j <= s@.len(),
            field_end(s@, j as int) == field_end(s@, i as int),
        decreases s@.len() - j,
    {
        j += 1;
    }
    j
}

fn side_of(c: u8) -> (r: usize)
    ensures
        r == letter_side(c),
{
    if c == 80 || c == 78 || c == 66 || c == 82 || c == 81 || c == 75 {
        0
    } else {
        1
    }
}

fn kind_of(c: u8) -> (r: usize)
    ensures
        r == letter_kind(c),
{
    if c == 78 || c == 110 {
        3
    } else if c == 66 || c == 98 {
        4
    } else if c == 82 || c == 114 {
        5
    } else if c == 81 || c == 113 {
        6
    } else if c == 75 || c == 107 {
        7
    } else {
        2
    }
}

fn right_of(c: u8) -> (r: u8)
    ensures
        r == letter_right(c),
{
    if c == 81 {
        Right::WQS
    } else if c == 75 {
        Right::WKS
    } else if c == 113 {
        Right::BQS
    } else if c == 107 {
        Right::BKS
    } else {
        0
    }
}

impl Position {
    /// Reads a position from its description. Nothing is rejected: what
    /// the description leaves out stays empty, and whether the position is
    /// sound is for `is_valid` to say.
        #[must_use]
    pub fn parse_fen(fen: &str) -> (pos: Self)
        ensures
            pos == fen_position(fen.spec_bytes()),
    {
        Self::parse_bytes(fen.as_bytes())
    }

    /// Reads a position from the bytes of its description.
    pub(crate) fn parse_bytes(s: &[u8]) -> (pos: Self)
        ensures
            pos == fen_position(s@),
    {
        let mut pos = Position { bb: [0, 0, 0, 0, 0, 0, 0, 0], stm: false, enp_sq: 0, rights: 0 };
        let ghost empty = pos;

        let a0 = skip(s, 0);
        let e0 = end_of(s, a0);
        let mut row: usize = 7;
        let mut col: usize = 0;
        let mut i = a0;
        while i < e0
            invariant
                a0 <= i <= e0 <= s@.len(),
                row <= 8,
                col <= 16,
                scan_board(s@, i as int, e0 as int, row as int, col as int, pos) == scan_board(
                    s@,
                    a0 as int,
                    e0 as int,
                    7,
                    0,
                    empty,
                ),
            decreases e0 - i,
        {
            let c = s[i];
            if c == 47 {
                row = if 1 <= row && row <= 7 {
                    row - 1
                } else {
                    8
                };
                col = 0;
            } else if 49 <= c && c <= 56 {
                if col < 8 {
                    col += (c - 48) as usize;
                }
            } else {
                if row < 8 && col < 8 {
                    pos.toggle(side_of(c), kind_of(c), 1u64 << ((8 * row + col) as u64));
                }
                if col < 8 {
                    col += 1;
                }
            }
            i += 1;
        }

        let a1 = skip(s, e0);
        let e1 = end_of(s, a1);
        pos.stm = e1 - a1 == 1 && s[a1] == 98;

        let a2 = skip(s, e1);
        let e2 = end_of(s, a2);
        let mut rights: u8 = 0;
        i = a2;
        while i < e2
            invariant
                a2 <= i <= e2 <= s@.len(),
                scan_rights(s@, i as int, e2 as int, rights) == scan_rights(
                    s@,
                    a2 as int,
                    e2 as int,
                    0,
                ),
            decreases e2 - i,
        {
            rights |= right_of(s[i]);
            i += 1;
        }
        pos.rights = rights;

        let a3 = skip(s, e2);
        let e3 = end_of(s, a3);
        pos.enp_sq = if e3 - a3 >= 2 && 97 <= s[a3] && s[a3] <= 104 && 49 <= s[a3 + 1] && s[a3
            + 1] <= 56 {
            8 * (s[a3 + 1] - 49) + (s[a3] - 97)
        } else {
            0
        };
        pos
    }
}

/// Reads a position from its description, as `Position::parse_fen` does.
#[must_use]
pub fn parse_fen(fen: &str) -> (pos: Position)
    ensures
        pos == fen_position(fen.spec_bytes()),
{
    Position::parse_fen(fen)
}

} // verus!
