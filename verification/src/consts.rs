//! Numeric codes shared by the whole library.

use vstd::prelude::*;

verus! {

/// The two players; also the indices of their occupancy masks.
pub struct Side;

impl Side {
    pub const WHITE: usize = 0;

    pub const BLACK: usize = 1;
}

/// Piece kinds; also the indices of their masks. Indices 0 and 1 belong to
/// the sides, so kinds start at 2.
pub struct Piece;

impl Piece {
    /// No piece.
    pub const EMPTY: usize = 0;

    pub const PAWN: usize = 2;

    pub const KNIGHT: usize = 3;

    pub const BISHOP: usize = 4;

    pub const ROOK: usize = 5;

    pub const QUEEN: usize = 6;

    pub const KING: usize = 7;
}

/// Move flags. Bit 2 marks a capture, bit 3 a promotion; the low two bits
/// of a promotion select knight, bishop, rook or queen.
pub struct Flag;

impl Flag {
    /// A move to an empty square.
    pub const QUIET: u8 = 0;

    /// A pawn's double push.
    pub const DBL: u8 = 1;

    /// Castling on the king's side.
    pub const KS: u8 = 2;

    /// Castling on the queen's side.
    pub const QS: u8 = 3;

    /// A capture.
    pub const CAP: u8 = 4;

    /// A capture in passing.
    pub const ENP: u8 = 5;

    /// Promotion to a knight.
    pub const NPR: u8 = 8;

    /// Promotion to a bishop.
    pub const BPR: u8 = 9;

    /// Promotion to a rook.
    pub const RPR: u8 = 10;

    /// Promotion to a queen.
    pub const QPR: u8 = 11;

    /// Capture with promotion to a knight.
    pub const NPC: u8 = 12;

    /// Capture with promotion to a bishop.
    pub const BPC: u8 = 13;

    /// Capture with promotion to a rook.
    pub const RPC: u8 = 14;

    /// Capture with promotion to a queen.
    pub const QPC: u8 = 15;
}

/// Castling rights, one bit each.
pub struct Right;

impl Right {
    /// White may castle on the queen's side.
    pub const WQS: u8 = 0b1000;

    /// White may castle on the king's side.
    pub const WKS: u8 = 0b0100;

    /// Black may castle on the queen's side.
    pub const BQS: u8 = 0b0010;

    /// Black may castle on the king's side.
    pub const BKS: u8 = 0b0001;

    /// Both rights of a side.
    pub const SIDE: [u8; 2] = [0b1100, 0b0011];

    /// The right of a side (first index) on the queen side (0) or king side (1).
    pub const TABLE: [[u8; 2]; 2] = [[0b1000, 0b0100], [0b0010, 0b0001]];
}

/// Squares between king and rook that must be empty for castling.
pub struct Path;

impl Path {
    /// b1, c1 and d1.
    pub const BD1: u64 = 0x0000_0000_0000_000E;

    /// f1 and g1.
    pub const FG1: u64 = 0x0000_0000_0000_0060;

    /// b8, c8 and d8.
    pub const BD8: u64 = 0x0E00_0000_0000_0000;

    /// f8 and g8.
    pub const FG8: u64 = 0x6000_0000_0000_0000;

    /// By side, then queen side (0) or king side (1).
    pub const TABLE: [[u64; 2]; 2] = [
        [0x0000_0000_0000_000E, 0x0000_0000_0000_0060],
        [0x0E00_0000_0000_0000, 0x6000_0000_0000_0000],
    ];
}

/// The rook's two squares in a castling move: queen side (0) or king side
/// (1), then by side.
pub const ROOK_MOVES: [[u64; 2]; 2] = [
    [0x0000_0000_0000_0009, 0x0900_0000_0000_0000],
    [0x0000_0000_0000_00A0, 0xA000_0000_0000_0000],
];

/// Rights that survive a move from or to each square: touching a king's or
/// a rook's home square gives up the rights that depend on it.
pub const CASTLE_MASK: [u8; 64] = [
    7, 15, 15, 15, 3, 15, 15, 11,
    15, 15, 15, 15, 15, 15, 15, 15,
    15, 15, 15, 15, 15, 15, 15, 15,
    15, 15, 15, 15, 15, 15, 15, 15,
    15, 15, 15, 15, 15, 15, 15, 15,
    15, 15, 15, 15, 15, 15, 15, 15,
    15, 15, 15, 15, 15, 15, 15, 15,
    13, 15, 15, 15, 12, 15, 15, 14,
];

/// Ranks that matter to pawns, by side.
pub struct Rank;

impl Rank {
    /// The rank from which a pawn promotes.
    pub const PEN: [u64; 2] = [0x00FF_0000_0000_0000, 0x0000_0000_0000_FF00];

    /// The rank on which a double push lands.
    pub const DBL: [u64; 2] = [0x0000_0000_FF00_0000, 0x0000_00FF_0000_0000];
}

} // verus!
